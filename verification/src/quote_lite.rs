//! Minimal Rust code generation: token streams built by hand or with a builder,
//! and their rendering as text.

use vstd::prelude::*;
use vstd::string::*;
use crate::text::{join, lemma_join_push, push_char};

verus! {

/// Delimiter types.
#[derive(Debug, Clone, Copy, PartialEq, Eq)]
pub enum Delimiter {
    NoDelimiter,
    Parenthesis,
    Brace,
    Bracket,
}

/// A token in the output stream.
#[derive(Debug)]
pub enum Token {
    Ident(String),
    Punct(char),
    Literal(String),
    Group(Delimiter, Vec<Token>),
}

/// The model of a token: its text pieces and, for a group, the models of its tokens.
pub enum TokenModel {
    Ident(Seq<char>),
    Punct(char),
    Literal(Seq<char>),
    Group(Delimiter, Seq<TokenModel>),
}

impl View for Token {
    type V = TokenModel;

    open spec fn view(&self) -> TokenModel {
        token_model(*self)
    }
}

/// The model of a token.
pub open spec fn token_model(t: Token) -> TokenModel
    decreases t, 1nat,
{
    match t {
        Token::Ident(s) => TokenModel::Ident(s@),
        Token::Punct(c) => TokenModel::Punct(c),
        Token::Literal(s) => TokenModel::Literal(s@),
        Token::Group(d, inner) => TokenModel::Group(d, token_models(inner@)),
    }
}

/// The models of a sequence of tokens.
pub open spec fn token_models(ts: Seq<Token>) -> Seq<TokenModel>
    decreases ts, 0nat,
{
    if ts.len() == 0 {
        Seq::empty()
    } else {
        seq![token_model(ts[0])] + token_models(ts.drop_first())
    }
}

proof fn lemma_token_models_push(ts: Seq<Token>, t: Token)
    ensures
        token_models(ts.push(t)) == token_models(ts).push(token_model(t)),
    decreases ts.len(),
{
    if ts.len() == 0 {
        assert(ts.push(t).drop_first() =~= ts);
    } else {
        lemma_token_models_push(ts.drop_first(), t);
        assert(ts.push(t).drop_first() =~= ts.drop_first().push(t));
        assert(token_models(ts.push(t)) =~= token_models(ts).push(token_model(t)));
    }
}

/// A copy of `t`, deep.
fn clone_token(t: &Token) -> (r: Token)
    ensures
        r@ == t@,
    decreases t,
{
    match t {
        Token::Ident(s) => Token::Ident(s.clone()),
        Token::Punct(c) => Token::Punct(*c),
        Token::Literal(s) => Token::Literal(s.clone()),
        Token::Group(d, inner) => {
            let v = clone_tokens(inner);
            Token::Group(*d, v)
        }
    }
}

/// A copy of `ts`, deep.
fn clone_tokens(ts: &Vec<Token>) -> (r: Vec<Token>)
    ensures
        token_models(r@) == token_models(ts@),
    decreases ts,
{
    let mut v: Vec<Token> = Vec::new();
    let mut i: usize = 0;
    while i < ts.len()
        invariant
            i <= ts@.len(),
            token_models(v@) == token_models(ts@.take(i as int)),
        decreases ts@.len() - i,
    {
        let c = clone_token(&ts[i]);
        proof {
            lemma_token_models_push(v@, c);
            lemma_token_models_push(ts@.take(i as int), ts@[i as int]);
            assert(ts@.take(i + 1) =~= ts@.take(i as int).push(ts@[i as int]));
        }
        v.push(c);
        i = i + 1;
    }
    assert(ts@.take(ts@.len() as int) =~= ts@);
    v
}

impl Clone for Token {
    fn clone(&self) -> (r: Self)
        ensures
            r@ == self@,
    {
        clone_token(self)
    }
}


proof fn lemma_token_models_index(ts: Seq<Token>)
    ensures
        token_models(ts).len() == ts.len(),
        forall|k: int| 0 <= k < ts.len() ==> #[trigger] token_models(ts)[k] == token_model(ts[k]),
    decreases ts.len(),
{
    if ts.len() > 0 {
        lemma_token_models_index(ts.drop_first());
        assert forall|k: int| 0 <= k < ts.len() implies #[trigger] token_models(ts)[k] == token_model(ts[k]) by {
            if k > 0 {
                assert(ts.drop_first()[k - 1] == ts[k]);
            }
        }
    }
}

proof fn lemma_token_models_concat(a: Seq<Token>, b: Seq<Token>)
    ensures
        token_models(a + b) == token_models(a) + token_models(b),
    decreases a.len(),
{
    if a.len() > 0 {
        lemma_token_models_concat(a.drop_first(), b);
        assert((a + b).drop_first() =~= a.drop_first() + b);
        assert(token_models(a + b) =~= token_models(a) + token_models(b));
    } else {
        assert(a + b =~= b);
        assert(token_models(a) + token_models(b) =~= token_models(b));
    }
}

/// Token stream builder.
#[derive(Debug)]
pub struct TokenStream {
    pub tokens: Vec<Token>,
}

impl View for TokenStream {
    type V = Seq<TokenModel>;

    open spec fn view(&self) -> Seq<TokenModel> {
        token_models(self.tokens@)
    }
}

impl Clone for TokenStream {
    fn clone(&self) -> (r: Self)
        ensures
            r@ == self@,
    {
        TokenStream { tokens: clone_tokens(&self.tokens) }
    }
}

impl Default for TokenStream {
    fn default() -> (r: Self)
        ensures
            r@ == Seq::<TokenModel>::empty(),
    {
        TokenStream::new()
    }
}

impl TokenStream {
    /// An empty stream.
    pub fn new() -> (r: Self)
        ensures
            r@ == Seq::<TokenModel>::empty(),
    {
        let r = TokenStream { tokens: Vec::new() };
        assert(r@ =~= Seq::<TokenModel>::empty());
        r
    }

    /// Appends a token.
    pub fn push(&mut self, token: Token)
        ensures
            final(self)@ == old(self)@.push(token@),
    {
        proof {
            lemma_token_models_push(self.tokens@, token);
        }
        self.tokens.push(token);
    }

    /// Appends an identifier.
    pub fn push_ident(&mut self, s: &str)
        ensures
            final(self)@ == old(self)@.push(TokenModel::Ident(s@)),
    {
        self.push(Token::Ident(s.to_string()));
    }

    /// Appends a punctuation character.
    pub fn push_punct(&mut self, c: char)
        ensures
            final(self)@ == old(self)@.push(TokenModel::Punct(c)),
    {
        self.push(Token::Punct(c));
    }

    /// Appends a literal.
    pub fn push_literal(&mut self, s: &str)
        ensures
            final(self)@ == old(self)@.push(TokenModel::Literal(s@)),
    {
        self.push(Token::Literal(s.to_string()));
    }

    /// Appends a group holding the tokens of `inner`.
    pub fn push_group(&mut self, delim: Delimiter, inner: TokenStream)
        ensures
            final(self)@ == old(self)@.push(TokenModel::Group(delim, inner@)),
    {
        self.push(Token::Group(delim, inner.tokens));
    }

    /// Appends all tokens of `other`.
    pub fn extend(&mut self, other: TokenStream)
        ensures
            final(self)@ == old(self)@ + other@,
    {
        let mut other = other;
        let ghost orig = self.tokens@;
        proof {
            lemma_token_models_concat(self.tokens@, other.tokens@);
        }
        self.tokens.append(&mut other.tokens);
    }

    /// Whether the stream holds no token.
    pub fn is_empty(&self) -> (b: bool)
        ensures
            b == (self@.len() == 0),
    {
        proof {
            lemma_token_models_index(self.tokens@);
        }
        self.tokens.len() == 0
    }

    /// An iterator over the tokens.
    pub fn iter(&self) -> (it: std::slice::Iter<'_, Token>)
        ensures
            vstd::std_specs::slice::into_iter_elts(it) == self.tokens@,
    {
        let sl = self.tokens.as_slice();
        let it = sl.iter();
        proof {
            vstd::std_specs::slice::axiom_spec_slice_iter(sl);
            assert(vstd::std_specs::iter::IteratorSpec::remaining(&it).unref() =~= self.tokens@);
        }
        it
    }
}

/// Types that can be quoted into a token stream.
pub trait ToTokens {
    /// Appends the tokens of `self` to `tokens`.
    fn to_tokens(&self, tokens: &mut TokenStream);
}

impl ToTokens for TokenStream {
    fn to_tokens(&self, tokens: &mut TokenStream)
        ensures
            final(tokens)@ == old(tokens)@ + self@,
    {
        tokens.extend(self.clone());
    }
}

impl ToTokens for str {
    fn to_tokens(&self, tokens: &mut TokenStream)
        ensures
            final(tokens)@ == old(tokens)@.push(TokenModel::Ident(self@)),
    {
        tokens.push_ident(self);
    }
}

impl ToTokens for String {
    fn to_tokens(&self, tokens: &mut TokenStream)
        ensures
            final(tokens)@ == old(tokens)@.push(TokenModel::Ident(self@)),
    {
        tokens.push_ident(self.as_str());
    }
}

/// Simple identifier wrapper.
#[derive(Debug, Clone)]
pub struct Ident(pub String);

impl Ident {
    /// An identifier with the given text.
    pub fn new(s: &str) -> (r: Self)
        ensures
            r.0@ == s@,
    {
        Ident(s.to_string())
    }
}

impl ToTokens for Ident {
    fn to_tokens(&self, tokens: &mut TokenStream)
        ensures
            final(tokens)@ == old(tokens)@.push(TokenModel::Ident(self.0@)),
    {
        tokens.push_ident(self.0.as_str());
    }
}

/// Builder for generating code.
pub struct Tokens {
    stream: TokenStream,
}

impl View for Tokens {
    type V = Seq<TokenModel>;

    closed spec fn view(&self) -> Seq<TokenModel> {
        self.stream@
    }
}

impl Default for Tokens {
    fn default() -> (r: Self)
        ensures
            r@ == Seq::<TokenModel>::empty(),
    {
        Tokens::new()
    }
}

impl Tokens {
    /// An empty builder.
    pub fn new() -> (r: Self)
        ensures
            r@ == Seq::<TokenModel>::empty(),
    {
        Tokens { stream: TokenStream::new() }
    }

    /// Adds an identifier.
    pub fn ident(self, s: &str) -> (r: Self)
        ensures
            r@ == self@.push(TokenModel::Ident(s@)),
    {
        let mut b = self;
        b.stream.push_ident(s);
        b
    }

    /// Adds a punctuation character.
    pub fn punct(self, c: char) -> (r: Self)
        ensures
            r@ == self@.push(TokenModel::Punct(c)),
    {
        let mut b = self;
        b.stream.push_punct(c);
        b
    }

    /// Adds a literal.
    pub fn literal(self, s: &str) -> (r: Self)
        ensures
            r@ == self@.push(TokenModel::Literal(s@)),
    {
        let mut b = self;
        b.stream.push_literal(s);
        b
    }

    /// Adds a group holding the tokens of `inner`.
    pub fn group(self, delim: Delimiter, inner: TokenStream) -> (r: Self)
        ensures
            r@ == self@.push(TokenModel::Group(delim, inner@)),
    {
        let mut b = self;
        b.stream.push_group(delim, inner);
        b
    }

    /// Adds all tokens of `ts`.
    pub fn tokens(self, ts: TokenStream) -> (r: Self)
        ensures
            r@ == self@ + ts@,
    {
        let mut b = self;
        b.stream.extend(ts);
        b
    }

    /// The stream built so far.
    pub fn build(self) -> (r: TokenStream)
        ensures
            r@ == self@,
    {
        self.stream
    }
}

/// The opening text of a group delimited by `d`.
pub open spec fn open_text(d: Delimiter) -> Seq<char> {
    match d {
        Delimiter::Parenthesis => "("@,
        Delimiter::Brace => "{"@,
        Delimiter::Bracket => "["@,
        Delimiter::NoDelimiter => Seq::empty(),
    }
}

/// The closing text of a group delimited by `d`.
pub open spec fn close_text(d: Delimiter) -> Seq<char> {
    match d {
        Delimiter::Parenthesis => ")"@,
        Delimiter::Brace => "}"@,
        Delimiter::Bracket => "]"@,
        Delimiter::NoDelimiter => Seq::empty(),
    }
}

/// Text of a token two groups deep: groups there render as nothing.
pub open spec fn leaf_text(t: TokenModel) -> Seq<char> {
    match t {
        TokenModel::Ident(s) => s,
        TokenModel::Punct(c) => seq![c],
        TokenModel::Literal(s) => "\""@ + s + "\""@,
        TokenModel::Group(_, _) => Seq::empty(),
    }
}

/// Text of a token one group deep.
pub open spec fn mid_text(t: TokenModel) -> Seq<char> {
    match t {
        TokenModel::Group(d, inner) => open_text(d) + join(inner.map_values(|x: TokenModel| leaf_text(x)), " "@)
            + close_text(d),
        _ => leaf_text(t),
    }
}

/// Text of a top-level token.
pub open spec fn top_text(t: TokenModel) -> Seq<char> {
    match t {
        TokenModel::Group(d, inner) => open_text(d) + join(inner.map_values(|x: TokenModel| mid_text(x)), " "@)
            + close_text(d),
        _ => leaf_text(t),
    }
}

/// Text of a token at nesting `level` (0 at the top).
pub open spec fn text_at(t: TokenModel, level: nat) -> Seq<char> {
    if level == 0 {
        top_text(t)
    } else if level == 1 {
        mid_text(t)
    } else {
        leaf_text(t)
    }
}

/// The text of a stream: its top-level tokens' texts separated by spaces.
pub open spec fn stream_text(ts: Seq<TokenModel>) -> Seq<char> {
    join(ts.map_values(|x: TokenModel| top_text(x)), " "@)
}

fn open_str(d: Delimiter) -> (r: &'static str)
    ensures
        r@ == open_text(d),
{
    proof {
        reveal_strlit("(");
        reveal_strlit("{");
        reveal_strlit("[");
        reveal_strlit("");
    }
    match d {
        Delimiter::Parenthesis => "(",
        Delimiter::Brace => "{",
        Delimiter::Bracket => "[",
        Delimiter::NoDelimiter => "",
    }
}

fn close_str(d: Delimiter) -> (r: &'static str)
    ensures
        r@ == close_text(d),
{
    proof {
        reveal_strlit(")");
        reveal_strlit("}");
        reveal_strlit("]");
        reveal_strlit("");
    }
    match d {
        Delimiter::Parenthesis => ")",
        Delimiter::Brace => "}",
        Delimiter::Bracket => "]",
        Delimiter::NoDelimiter => "",
    }
}

/// Appends the text of `t` at nesting `level` to `out`.
fn append_token_text(out: &mut String, t: &Token, level: u8)
    requires
        level <= 2,
    ensures
        final(out)@ == old(out)@ + text_at(t@, level as nat),
    decreases 2 - level, 0nat,
{
    proof {
        reveal_strlit("\"");
    }
    match t {
        Token::Ident(s) => out.append(s.as_str()),
        Token::Punct(c) => push_char(out, *c),
        Token::Literal(s) => {
            out.append("\"");
            out.append(s.as_str());
            out.append("\"");
        }
        Token::Group(d, inner) => {
            if level < 2 {
                out.append(open_str(*d));
                let ghost before = out@;
                append_joined(out, inner, level + 1);
                out.append(close_str(*d));
                proof {
                    let ms = token_models(inner@);
                    if level == 0 {
                        assert(ms.map_values(|x: TokenModel| text_at(x, 1)) =~= ms.map_values(|x: TokenModel| mid_text(x)));
                    } else {
                        assert(ms.map_values(|x: TokenModel| text_at(x, 2)) =~= ms.map_values(|x: TokenModel| leaf_text(x)));
                    }
                }
            }
        }
    }
}

/// Appends the texts of `ts` at nesting `level`, separated by spaces, to `out`.
fn append_joined(out: &mut String, ts: &Vec<Token>, level: u8)
    requires
        1 <= level <= 2,
    ensures
        final(out)@ == old(out)@ + join(token_models(ts@).map_values(|x: TokenModel| text_at(x, level as nat)), " "@),
    decreases 2 - level, 1nat,
{
    proof {
        reveal_strlit(" ");
        lemma_token_models_index(ts@);
    }
    let ghost start = out@;
    let ghost ms = token_models(ts@);
    let mut i: usize = 0;
    while i < ts.len()
        invariant
            1 <= level <= 2,
            i <= ts@.len(),
            ms == token_models(ts@),
            ms.len() == ts@.len(),
            forall|k: int| 0 <= k < ts@.len() ==> #[trigger] ms[k] == token_model(ts@[k]),
            out@ == start + join(ms.take(i as int).map_values(|x: TokenModel| text_at(x, level as nat)), " "@),
        decreases ts@.len() - i,
    {
        let ghost prev = ms.take(i as int).map_values(|x: TokenModel| text_at(x, level as nat));
        if i > 0 {
            out.append(" ");
        }
        append_token_text(out, &ts[i], level);
        proof {
            let next = ms.take(i + 1).map_values(|x: TokenModel| text_at(x, level as nat));
            assert(next =~= prev.push(text_at(ms[i as int], level as nat)));
            lemma_join_push(prev, " "@, text_at(ms[i as int], level as nat));
        }
        i = i + 1;
    }
    assert(ms.take(ts@.len() as int) =~= ms);
}

/// Format a token stream as text: top-level tokens separated by spaces, identifiers
/// as they are, literals in double quotes, groups in their delimiters with their
/// tokens separated by spaces; groups nested more than two deep render as nothing.
pub fn tokens_to_string(tokens: &TokenStream) -> (s: String)
    ensures
        s@ == stream_text(tokens@),
{
    let mut out = String::new();
    proof {
        reveal_strlit(" ");
        lemma_token_models_index(tokens.tokens@);
    }
    let ghost ms = tokens@;
    let mut i: usize = 0;
    while i < tokens.tokens.len()
        invariant
            i <= tokens.tokens@.len(),
            ms == tokens@,
            ms.len() == tokens.tokens@.len(),
            forall|k: int| 0 <= k < tokens.tokens@.len() ==> #[trigger] ms[k] == token_model(tokens.tokens@[k]),
            out@ == join(ms.take(i as int).map_values(|x: TokenModel| top_text(x)), " "@),
        decreases tokens.tokens@.len() - i,
    {
        let ghost prev = ms.take(i as int).map_values(|x: TokenModel| top_text(x));
        if i > 0 {
            out.append(" ");
        }
        append_token_text(&mut out, &tokens.tokens[i], 0);
        proof {
            let next = ms.take(i + 1).map_values(|x: TokenModel| top_text(x));
            assert(next =~= prev.push(top_text(ms[i as int])));
            lemma_join_push(prev, " "@, top_text(ms[i as int]));
        }
        i = i + 1;
    }
    assert(ms.take(ms.len() as int) =~= ms);
    out
}

} // verus!
