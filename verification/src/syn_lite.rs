//! Minimal Rust syntax tree for code analysis: identifiers, paths, types,
//! expressions, items and token trees, with a few constructors and queries.

use crate::text::str_eq;
use vstd::prelude::*;
use vstd::string::*;

verus! {

/// An identifier in Rust code
#[derive(Debug, Clone, PartialEq)]
pub struct Ident {
    pub span: Span,
    pub sym: String,
}

/// A span representing a source code location
#[derive(Debug, Clone, Copy, PartialEq, Eq)]
pub struct Span {
    pub(crate) private: (),
}

/// A Rust path like `std::vec::Vec`
#[derive(Debug, PartialEq)]
pub struct Path {
    pub segments: Vec<PathSegment>,
}

/// A segment of a path
#[derive(Debug, PartialEq)]
pub struct PathSegment {
    pub ident: Ident,
    pub arguments: PathArguments,
}

/// Arguments to a path segment (e.g., `<T>` in `Vec<T>`)
#[derive(Debug, PartialEq)]
pub enum PathArguments {
    NoArgs,
    AngleBracketed(AngleBracketedArgs),
    Parenthesized(ParenthesizedArgs),
}

/// Generic arguments in angle brackets: `<T, U>`
#[derive(Debug, PartialEq)]
pub struct AngleBracketedArgs {
    pub args: Vec<GenericArgument>,
}

/// Generic arguments in parentheses: `(T, U) -> V`
#[derive(Debug, PartialEq)]
pub struct ParenthesizedArgs {
    pub inputs: Vec<Type>,
    pub output: Option<Type>,
}

/// A generic argument
#[derive(Debug, PartialEq)]
pub enum GenericArgument {
    Type(Type),
    Lifetime(Lifetime),
}

/// A lifetime like `'a`
#[derive(Debug, Clone, PartialEq)]
pub struct Lifetime {
    pub span: Span,
    pub sym: String,
}

/// A Rust type
#[derive(Debug, PartialEq)]
pub enum Type {
    Path(TypePath),
    Tuple(TypeTuple),
    Reference(TypeReference),
    Slice(TypeSlice),
    Array(TypeArray),
    BareFn(Box<TypeBareFn>),
    Verbatim(TokenStream),
}

/// A type that is a path
#[derive(Debug, PartialEq)]
pub struct TypePath {
    pub qself: Option<QSelf>,
    pub path: Path,
}

/// A type in angle brackets with an optional type
#[derive(Debug, PartialEq)]
pub struct QSelf {
    pub ty: Box<Type>,
    pub position: usize,
}

/// A tuple type: `(T, U, V)`
#[derive(Debug, PartialEq)]
pub struct TypeTuple {
    pub elems: Vec<Type>,
}

/// A reference type: `&T` or `&mut T`
#[derive(Debug, PartialEq)]
pub struct TypeReference {
    pub and_token: Span,
    pub lifetime: Option<Lifetime>,
    pub mutability: Option<Span>,
    pub elem: Box<Type>,
}

/// A slice type: `[T]`
#[derive(Debug, PartialEq)]
pub struct TypeSlice {
    pub elem: Box<Type>,
}

/// An array type: `[T; N]`
#[derive(Debug, PartialEq)]
pub struct TypeArray {
    pub elem: Box<Type>,
    pub len: Expr,
}

/// A function pointer type: `fn(T, U) -> V`
#[derive(Debug, PartialEq)]
pub struct TypeBareFn {
    pub lifetimes: Option<Vec<Lifetime>>,
    pub inputs: Vec<BareFnArg>,
    pub output: Option<Box<Type>>,
}

/// An argument to a bare function type
#[derive(Debug, PartialEq)]
pub struct BareFnArg {
    pub name: Option<Ident>,
    pub ty: Type,
}

/// A Rust expression
#[derive(Debug, PartialEq)]
pub enum Expr {
    Path(ExprPath),
    Lit(Lit),
    Call(ExprCall),
    MethodCall(ExprMethodCall),
    Field(ExprField),
    Index(ExprIndex),
    Binary(ExprBinary),
    Unary(ExprUnary),
    Group(ExprGroup),
    Verbatim(TokenStream),
}

/// A path expression
#[derive(Debug, PartialEq)]
pub struct ExprPath {
    pub qself: Option<QSelf>,
    pub path: Path,
}

/// A literal expression
#[derive(Debug, PartialEq)]
pub enum Lit {
    Str(LitStr),
    Int(LitInt),
    Float(LitFloat),
    Bool(LitBool),
    Char(LitChar),
    Byte(LitByte),
    ByteStr(LitByteStr),
    Verbatim(TokenStream),
}

/// A string literal
#[derive(Debug, Clone, PartialEq)]
pub struct LitStr {
    pub span: Span,
    pub value: String,
}

/// An integer literal
#[derive(Debug, Clone, PartialEq)]
pub struct LitInt {
    pub span: Span,
    pub value: String,
}

/// A float literal
#[derive(Debug, Clone, PartialEq)]
pub struct LitFloat {
    pub span: Span,
    pub value: String,
}

/// A boolean literal
#[derive(Debug, Clone, PartialEq)]
pub struct LitBool {
    pub span: Span,
    pub value: bool,
}

/// A character literal
#[derive(Debug, Clone, PartialEq)]
pub struct LitChar {
    pub span: Span,
    pub value: char,
}

/// A byte literal
#[derive(Debug, Clone, PartialEq)]
pub struct LitByte {
    pub span: Span,
    pub value: u8,
}

/// A byte string literal
#[derive(Debug, Clone, PartialEq)]
pub struct LitByteStr {
    pub span: Span,
    pub value: Vec<u8>,
}

/// A function call expression
#[derive(Debug, PartialEq)]
pub struct ExprCall {
    pub func: Box<Expr>,
    pub args: Vec<Expr>,
}

/// A method call expression
#[derive(Debug, PartialEq)]
pub struct ExprMethodCall {
    pub method: Ident,
    pub args: Vec<Expr>,
}

/// A field access expression
#[derive(Debug, PartialEq)]
pub struct ExprField {
    pub base: Box<Expr>,
    pub member: Ident,
}

/// An indexing expression
#[derive(Debug, PartialEq)]
pub struct ExprIndex {
    pub expr: Box<Expr>,
    pub index: Box<Expr>,
}

/// A binary operation
#[derive(Debug, PartialEq)]
pub struct ExprBinary {
    pub left: Box<Expr>,
    pub op: BinOp,
    pub right: Box<Expr>,
}

/// Binary operators
#[derive(Debug, Clone, PartialEq)]
pub enum BinOp {
    Add,
    Sub,
    Mul,
    Div,
    Rem,
    And,
    Or,
    BitAnd,
    BitOr,
    BitXor,
    Shl,
    Shr,
    Eq,
    Lt,
    Le,
    Ne,
    Ge,
    Gt,
}

/// A unary operation
#[derive(Debug, PartialEq)]
pub struct ExprUnary {
    pub op: UnOp,
    pub expr: Box<Expr>,
}

/// Unary operators
#[derive(Debug, Clone, PartialEq)]
pub enum UnOp {
    Deref,
    Not,
    Neg,
}

/// A grouped expression
#[derive(Debug, PartialEq)]
pub struct ExprGroup {
    pub expr: Box<Expr>,
}

/// A Rust item (struct, enum, fn, etc.)
#[derive(Debug)]
pub enum Item {
    Struct(ItemStruct),
    Enum(ItemEnum),
    Fn(ItemFn),
    Const(ItemConst),
    Type(ItemType),
    Mod(ItemMod),
    Use(ItemUse),
    Verbatim(TokenStream),
}

/// A struct definition
#[derive(Debug)]
pub struct ItemStruct {
    pub ident: Ident,
    pub generics: Generics,
    pub fields: Fields,
    pub semi_token: Option<Span>,
}

/// An enum definition
#[derive(Debug)]
pub struct ItemEnum {
    pub ident: Ident,
    pub generics: Generics,
    pub variants: Vec<Variant>,
}

/// A function definition
#[derive(Debug)]
pub struct ItemFn {
    pub ident: Ident,
    pub sig: Signature,
    pub block: Block,
}

/// A function signature
#[derive(Debug)]
pub struct Signature {
    pub constness: Option<Span>,
    pub asyncness: Option<Span>,
    pub unsafety: Option<Span>,
    pub abi: Option<Abi>,
    pub fn_token: Span,
    pub generics: Generics,
    pub inputs: Vec<FnArg>,
    pub output: ReturnType,
}

/// Function arguments
#[derive(Debug)]
pub enum FnArg {
    Receiver(Receiver),
    Typed(PatType),
}

/// A function receiver (`&self`, `&mut self`, `self`)
#[derive(Debug)]
pub struct Receiver {
    pub reference: Option<Span>,
    pub lifetime: Option<Lifetime>,
    pub mutability: Option<Span>,
    pub colon_token: Option<Span>,
    pub ty: Box<Type>,
}

/// A pattern with a type annotation
#[derive(Debug)]
pub struct PatType {
    pub pat: Box<Pat>,
    pub ty: Box<Type>,
}

/// A pattern
#[derive(Debug)]
pub enum Pat {
    Wild,
    Ident(PatIdent),
    Path(PatPath),
    Or(PatOr),
    Tuple(PatTuple),
}

/// An identifier pattern
#[derive(Debug)]
pub struct PatIdent {
    pub by_ref: Option<Span>,
    pub mutability: Option<Span>,
    pub ident: Ident,
    pub subpat: Option<(Span, Box<Pat>)>,
}

/// A path pattern
#[derive(Debug)]
pub struct PatPath {
    pub path: Path,
}

/// An or pattern (`A | B`)
#[derive(Debug)]
pub struct PatOr {
    pub cases: Vec<Pat>,
}

/// A tuple pattern
#[derive(Debug)]
pub struct PatTuple {
    pub elems: Vec<Pat>,
}

/// Return type of a function
#[derive(Debug)]
pub enum ReturnType {
    Default,
    Type(Span, Box<Type>),
}

/// A block of code
#[derive(Debug)]
pub struct Block {
    pub brace_token: Span,
    pub stmts: Vec<Stmt>,
}

/// A statement
#[derive(Debug)]
pub enum Stmt {
    Local(Local),
    Item(Item),
    Expr(Expr, Option<Span>),
    Semi(Expr, Span),
}

/// A local binding (`let x = 5`)
#[derive(Debug)]
pub struct Local {
    pub let_token: Span,
    pub pat: Pat,
    pub init: Option<(Span, Box<Expr>)>,
    pub semi_token: Span,
}

/// ABI specification
#[derive(Debug)]
pub struct Abi {
    pub extern_token: Span,
    pub name: Option<LitStr>,
}

/// Generic parameters
#[derive(Debug)]
pub struct Generics {
    pub lt_token: Option<Span>,
    pub params: Vec<GenericParam>,
    pub gt_token: Option<Span>,
    pub where_clause: Option<WhereClause>,
}

/// A generic parameter
#[derive(Debug)]
pub enum GenericParam {
    Type(TypeParam),
    Lifetime(ParamLifetime),
    Const(ConstParam),
}

/// A type parameter
#[derive(Debug)]
pub struct TypeParam {
    pub ident: Ident,
    pub colon_token: Option<Span>,
    pub bounds: Vec<TypeParamBound>,
    pub eq_token: Option<Span>,
    pub default: Option<Type>,
}

/// A lifetime parameter
#[derive(Debug)]
pub struct ParamLifetime {
    pub lifetime: Lifetime,
    pub colon_token: Option<Span>,
    pub bounds: Vec<Lifetime>,
}

/// A const parameter
#[derive(Debug)]
pub struct ConstParam {
    pub const_token: Span,
    pub ident: Ident,
    pub colon_token: Span,
    pub ty: Type,
    pub eq_token: Option<Span>,
    pub default: Option<Expr>,
}

/// A bound on a type parameter
#[derive(Debug)]
pub enum TypeParamBound {
    Trait(TraitBound),
    Lifetime(Lifetime),
}

/// A trait bound
#[derive(Debug)]
pub struct TraitBound {
    pub paren_token: Option<Span>,
    pub modifier: TraitBoundModifier,
    pub lifetimes: Option<Vec<Lifetime>>,
    pub path: Path,
}

/// A trait bound modifier
#[derive(Debug)]
pub enum TraitBoundModifier {
    NoModifier,
    Maybe(Span),
}

/// A where clause
#[derive(Debug)]
pub struct WhereClause {
    pub where_token: Span,
    pub predicates: Vec<WherePredicate>,
}

/// A where predicate
#[derive(Debug)]
pub enum WherePredicate {
    Lifetime(PredicateLifetime),
    Type(PredicateType),
}

/// A lifetime predicate
#[derive(Debug)]
pub struct PredicateLifetime {
    pub lifetime: Lifetime,
    pub colon_token: Span,
    pub bounds: Vec<Lifetime>,
}

/// A type predicate
#[derive(Debug)]
pub struct PredicateType {
    pub lifetimes: Option<Vec<Lifetime>>,
    pub bounded_ty: Type,
    pub colon_token: Span,
    pub bounds: Vec<TypeParamBound>,
}

/// Fields of a struct
#[derive(Debug)]
pub enum Fields {
    Named(FieldsNamed),
    Unnamed(FieldsUnnamed),
    Unit,
}

/// Named fields (`struct Foo { x: i32, y: i32 }`)
#[derive(Debug)]
pub struct FieldsNamed {
    pub brace_token: Span,
    pub named: Vec<Field>,
}

/// Unnamed fields (`struct Foo(i32, String)`)
#[derive(Debug)]
pub struct FieldsUnnamed {
    pub paren_token: Span,
    pub unnamed: Vec<Field>,
}

/// A struct field or enum variant
#[derive(Debug)]
pub struct Field {
    pub vis: Visibility,
    pub ident: Option<Ident>,
    pub colon_token: Option<Span>,
    pub ty: Type,
}

/// Visibility modifier
#[derive(Debug)]
pub enum Visibility {
    Public(Span),
    Inherited,
    Restricted(PubRestriction),
}

/// Restricted visibility
#[derive(Debug)]
pub struct PubRestriction {
    pub paren_token: Span,
    pub path: Option<Path>,
}

/// An enum variant
#[derive(Debug)]
pub struct Variant {
    pub ident: Ident,
    pub fields: Fields,
    pub discriminant: Option<(Span, Expr)>,
}

/// A use declaration
#[derive(Debug)]
pub struct ItemUse {
    pub vis: Visibility,
    pub use_token: Span,
    pub tree: UseTree,
    pub semi_token: Span,
}

/// A use tree
#[derive(Debug)]
pub enum UseTree {
    Path(UsePath),
    Group(UseGroup),
    Name(UseName),
    Rename(UseRename),
    Glob(UseGlob),
}

/// A use path
#[derive(Debug)]
pub struct UsePath {
    pub ident: Ident,
    pub colon2_token: Span,
    pub tree: Box<UseTree>,
}

/// A use group
#[derive(Debug)]
pub struct UseGroup {
    pub brace_token: Span,
    pub items: Vec<UseTree>,
}

/// A use name
#[derive(Debug)]
pub struct UseName {
    pub ident: Ident,
}

/// A renamed use
#[derive(Debug)]
pub struct UseRename {
    pub ident: Ident,
    pub as_token: Span,
    pub rename: Ident,
}

/// A glob import
#[derive(Debug)]
pub struct UseGlob {
    pub star_token: Span,
}

/// A module
#[derive(Debug)]
pub struct ItemMod {
    pub vis: Visibility,
    pub mod_token: Span,
    pub ident: Ident,
    pub content: Option<(Span, Vec<Item>, Span)>,
    pub semi_token: Option<Span>,
}

/// A type alias
#[derive(Debug)]
pub struct ItemType {
    pub vis: Visibility,
    pub type_token: Span,
    pub ident: Ident,
    pub generics: Generics,
    pub eq_token: Span,
    pub ty: Type,
    pub semi_token: Span,
}

/// A const item
#[derive(Debug)]
pub struct ItemConst {
    pub vis: Visibility,
    pub const_token: Span,
    pub ident: Ident,
    pub colon_token: Span,
    pub ty: Type,
    pub eq_token: Span,
    pub expr: Expr,
    pub semi_token: Span,
}

/// Token stream wrapper
#[derive(Debug, PartialEq)]
pub struct TokenStream {
    pub tokens: Vec<TokenTree>,
}

/// A single token tree
#[derive(Debug, PartialEq)]
pub enum TokenTree {
    Group(Group),
    Ident(Ident),
    Punct(Punct),
    Literal(Literal),
}

/// A grouped token sequence
#[derive(Debug, PartialEq)]
pub struct Group {
    pub delimiter: Delimiter,
    pub stream: TokenStream,
}

/// Delimiter types
#[derive(Debug, Clone, Copy, PartialEq, Eq)]
pub enum Delimiter {
    NoDelimiter,
    Parenthesis,
    Brace,
    Bracket,
}

/// A punctuation token
#[derive(Debug, Clone, PartialEq)]
pub struct Punct {
    pub ch: char,
    pub spacing: Spacing,
}

/// Punctuation spacing
#[derive(Debug, Clone, Copy, PartialEq, Eq)]
pub enum Spacing {
    Alone,
    Joint,
}

/// A literal token
#[derive(Debug, Clone, PartialEq)]
pub struct Literal {
    pub span: Span,
    pub symbol: String,
}

impl Ident {
    /// An identifier with the given text and span.
    pub fn new(s: &str, span: Span) -> (r: Self)
        ensures
            r.sym@ == s@,
            r.span == span,
    {
        Ident { span, sym: s.to_string() }
    }

    /// An identifier with the given text at the call site.
    pub fn new_static(s: &'static str) -> (r: Self)
        ensures
            r.sym@ == s@,
            r.span == Span::call_site_spec(),
    {
        Ident { span: Span::call_site(), sym: s.to_string() }
    }

    /// The displayed form of the identifier: its text.
    pub fn to_string(&self) -> (r: String)
        ensures
            r@ == self.sym@,
    {
        self.sym.clone()
    }
}

impl Span {
    /// The span every constructor gives.
    pub closed spec fn call_site_spec() -> Span {
        Span { private: () }
    }

    /// The span of the macro call site.
    pub fn call_site() -> (r: Self)
        ensures
            r == Span::call_site_spec(),
    {
        Span { private: () }
    }

    /// The span of the macro definition site, mixed with the call site.
    pub fn mixed_site() -> (r: Self)
        ensures
            r == Span::call_site_spec(),
    {
        Span { private: () }
    }
}

impl Default for Span {
    fn default() -> (r: Self)
        ensures
            r == Span::call_site_spec(),
    {
        Span { private: () }
    }
}

impl Path {
    /// A path with no segment.
    pub fn new() -> (r: Self)
        ensures
            r.segments@.len() == 0,
    {
        Path { segments: Vec::new() }
    }

    /// A path of the one segment `ident`, with no arguments.
    pub fn single(ident: Ident) -> (r: Self)
        ensures
            r.segments@.len() == 1,
            r.segments@[0].ident == ident,
            r.segments@[0].arguments is NoArgs,
    {
        let mut segments = Vec::new();
        segments.push(PathSegment { ident, arguments: PathArguments::NoArgs });
        Path { segments }
    }

    /// Whether the path is the single identifier `s`.
    pub fn is_ident(&self, s: &str) -> (b: bool)
        ensures
            b == (self.segments@.len() == 1 && self.segments@[0].ident.sym@ == s@),
    {
        self.segments.len() == 1 && str_eq(self.segments[0].ident.sym.as_str(), s)
    }
}

impl Default for Path {
    fn default() -> (r: Self)
        ensures
            r.segments@.len() == 0,
    {
        Path::new()
    }
}

impl Lifetime {
    /// A lifetime with the given text and span.
    pub fn new(s: &str, span: Span) -> (r: Self)
        ensures
            r.sym@ == s@,
            r.span == span,
    {
        Lifetime { span, sym: s.to_string() }
    }
}

impl Default for Generics {
    fn default() -> (r: Self)
        ensures
            r.lt_token is None,
            r.params@.len() == 0,
            r.gt_token is None,
            r.where_clause is None,
    {
        Generics { lt_token: None, params: Vec::new(), gt_token: None, where_clause: None }
    }
}

impl TokenStream {
    /// An empty stream.
    pub fn new() -> (r: Self)
        ensures
            r.tokens@.len() == 0,
    {
        TokenStream { tokens: Vec::new() }
    }

    /// Whether the stream holds no token.
    pub fn is_empty(&self) -> (b: bool)
        ensures
            b == (self.tokens@.len() == 0),
    {
        self.tokens.len() == 0
    }

    /// The number of tokens.
    pub fn len(&self) -> (n: usize)
        ensures
            n == self.tokens@.len(),
    {
        self.tokens.len()
    }

    /// An iterator over the tokens.
    pub fn iter(&self) -> (it: std::slice::Iter<'_, TokenTree>)
        ensures
            vstd::std_specs::slice::into_iter_elts(it) == self.tokens@,
    {
        let sl = self.tokens.as_slice();
        let it = sl.iter();
        proof {
            vstd::std_specs::slice::axiom_spec_slice_iter(sl);
            assert(vstd::std_specs::iter::IteratorSpec::remaining(&it).unref() =~= self.tokens@);
        }
        it
    }
}

impl Default for TokenStream {
    fn default() -> (r: Self)
        ensures
            r.tokens@.len() == 0,
    {
        TokenStream::new()
    }
}

impl From<Vec<TokenTree>> for TokenStream {
    fn from(tokens: Vec<TokenTree>) -> (r: Self) {
        TokenStream { tokens }
    }
}

impl vstd::std_specs::convert::FromSpecImpl<Vec<TokenTree>> for TokenStream {
    open spec fn obeys_from_spec() -> bool {
        true
    }

    open spec fn from_spec(v: Vec<TokenTree>) -> Self {
        TokenStream { tokens: v }
    }
}

impl Punct {
    /// A punctuation token.
    pub fn new(ch: char, spacing: Spacing) -> (r: Self)
        ensures
            r.ch == ch,
            r.spacing == spacing,
    {
        Punct { ch, spacing }
    }
}

impl From<Ident> for TokenTree {
    fn from(ident: Ident) -> (r: Self) {
        TokenTree::Ident(ident)
    }
}

impl vstd::std_specs::convert::FromSpecImpl<Ident> for TokenTree {
    open spec fn obeys_from_spec() -> bool {
        true
    }

    open spec fn from_spec(v: Ident) -> Self {
        TokenTree::Ident(v)
    }
}

impl From<Punct> for TokenTree {
    fn from(punct: Punct) -> (r: Self) {
        TokenTree::Punct(punct)
    }
}

impl vstd::std_specs::convert::FromSpecImpl<Punct> for TokenTree {
    open spec fn obeys_from_spec() -> bool {
        true
    }

    open spec fn from_spec(v: Punct) -> Self {
        TokenTree::Punct(v)
    }
}

impl From<Literal> for TokenTree {
    fn from(lit: Literal) -> (r: Self) {
        TokenTree::Literal(lit)
    }
}

impl vstd::std_specs::convert::FromSpecImpl<Literal> for TokenTree {
    open spec fn obeys_from_spec() -> bool {
        true
    }

    open spec fn from_spec(v: Literal) -> Self {
        TokenTree::Literal(v)
    }
}

impl From<Group> for TokenTree {
    fn from(group: Group) -> (r: Self) {
        TokenTree::Group(group)
    }
}

impl vstd::std_specs::convert::FromSpecImpl<Group> for TokenTree {
    open spec fn obeys_from_spec() -> bool {
        true
    }

    open spec fn from_spec(v: Group) -> Self {
        TokenTree::Group(v)
    }
}

} // verus!
