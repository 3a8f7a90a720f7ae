use rmpl::syn_lite::{BinOp, Block, Delimiter, Expr, ExprCall, ExprPath, Field, Fields, FieldsNamed, GenericParam, Generics, Ident, Item, ItemEnum, ItemFn, ItemStruct, Lifetime, Lit, LitInt, LitStr, Literal, Pat, PatIdent, Path, Punct, ReturnType, Signature, Spacing, Span, TokenStream, TokenTree, Type, TypeParam, TypePath, TypeReference, TypeTuple, UnOp, Variant, Visibility};

// Ident tests
#[test]
fn test_ident_display() {
    let span = Span::call_site();
    let ident = Ident::new("my_type", span);
    assert_eq!(ident.to_string(), "my_type");
}

// Path tests
#[test]
fn test_path_single() {
    let ident = Ident::new_static("Vec");
    let path = Path::single(ident);
    assert!(path.is_ident("Vec"));
    assert_eq!(path.segments.len(), 1);
}

#[test]
fn test_path_is_ident() {
    let path = Path::new();
    assert!(!path.is_ident("foo"));

    let ident = Ident::new_static("std");
    let path = Path::single(ident);
    assert!(path.is_ident("std"));
    assert!(!path.is_ident("Vec"));
}

// Type tests
#[test]
fn test_type_path() {
    let ident = Ident::new_static("String");
    let path = Path::single(ident);
    let ty = Type::Path(TypePath {
        qself: None,
        path,
    });
    match ty {
        Type::Path(TypePath { path, .. }) => {
            assert!(path.is_ident("String"));
        }
        _ => panic!("Expected Type::Path"),
    }
}

#[test]
fn test_type_tuple() {
    let ty = Type::Tuple(TypeTuple {
        elems: vec![
            Type::Path(TypePath {
                qself: None,
                path: Path::single(Ident::new_static("i32")),
            }),
            Type::Path(TypePath {
                qself: None,
                path: Path::single(Ident::new_static("String")),
            }),
        ],
    });
    match ty {
        Type::Tuple(TypeTuple { elems }) => {
            assert_eq!(elems.len(), 2);
        }
        _ => panic!("Expected Type::Tuple"),
    }
}

#[test]
fn test_type_reference() {
    let ty = Type::Reference(TypeReference {
        and_token: Span::call_site(),
        lifetime: None,
        mutability: Some(Span::call_site()),
        elem: Box::new(Type::Path(TypePath {
            qself: None,
            path: Path::single(Ident::new_static("str")),
        })),
    });
    match ty {
        Type::Reference(TypeReference { mutability, elem, .. }) => {
            assert!(mutability.is_some());
            match *elem {
                Type::Path(TypePath { path, .. }) => {
                    assert!(path.is_ident("str"));
                }
                _ => panic!("Expected inner type to be Path"),
            }
        }
        _ => panic!("Expected Type::Reference"),
    }
}

// Expr tests
#[test]
fn test_expr_path() {
    let expr = Expr::Path(ExprPath {
        qself: None,
        path: Path::single(Ident::new_static("println")),
    });
    match expr {
        Expr::Path(ExprPath { path, .. }) => {
            assert!(path.is_ident("println"));
        }
        _ => panic!("Expected Expr::Path"),
    }
}

#[test]
fn test_expr_lit_string() {
    let expr = Expr::Lit(Lit::Str(LitStr {
        span: Span::call_site(),
        value: "hello".to_string(),
    }));
    match expr {
        Expr::Lit(Lit::Str(LitStr { value, .. })) => {
            assert_eq!(value, "hello");
        }
        _ => panic!("Expected Expr::Lit(Str)"),
    }
}

#[test]
fn test_expr_lit_int() {
    let expr = Expr::Lit(Lit::Int(LitInt {
        span: Span::call_site(),
        value: "42".to_string(),
    }));
    match expr {
        Expr::Lit(Lit::Int(LitInt { value, .. })) => {
            assert_eq!(value, "42");
        }
        _ => panic!("Expected Expr::Lit(Int)"),
    }
}

#[test]
fn test_expr_call() {
    let expr = Expr::Call(ExprCall {
        func: Box::new(Expr::Path(ExprPath {
            qself: None,
            path: Path::single(Ident::new_static("foo")),
        })),
        args: vec![
            Expr::Lit(Lit::Int(LitInt {
                span: Span::call_site(),
                value: "1".to_string(),
            })),
        ],
    });
    match expr {
        Expr::Call(ExprCall { func, args }) => {
            assert_eq!(args.len(), 1);
            match *func {
                Expr::Path(ExprPath { path, .. }) => {
                    assert!(path.is_ident("foo"));
                }
                _ => panic!("Expected func to be Path"),
            }
        }
        _ => panic!("Expected Expr::Call"),
    }
}

// Item tests
#[test]
fn test_item_struct_named_fields() {
    let item = Item::Struct(ItemStruct {
        ident: Ident::new_static("Point"),
        generics: Generics::default(),
        fields: Fields::Named(FieldsNamed {
            brace_token: Span::call_site(),
            named: vec![
                Field {
                    vis: Visibility::Inherited,
                    ident: Some(Ident::new_static("x")),
                    colon_token: Some(Span::call_site()),
                    ty: Type::Path(TypePath {
                        qself: None,
                        path: Path::single(Ident::new_static("i32")),
                    }),
                },
                Field {
                    vis: Visibility::Inherited,
                    ident: Some(Ident::new_static("y")),
                    colon_token: Some(Span::call_site()),
                    ty: Type::Path(TypePath {
                        qself: None,
                        path: Path::single(Ident::new_static("i32")),
                    }),
                },
            ],
        }),
        semi_token: None,
    });

    match item {
        Item::Struct(ItemStruct { ident, fields, .. }) => {
            assert_eq!(ident.sym, "Point");
            match fields {
                Fields::Named(FieldsNamed { named, .. }) => {
                    assert_eq!(named.len(), 2);
                    assert_eq!(named[0].ident.as_ref().unwrap().sym, "x");
                    assert_eq!(named[1].ident.as_ref().unwrap().sym, "y");
                }
                _ => panic!("Expected named fields"),
            }
        }
        _ => panic!("Expected Item::Struct"),
    }
}

#[test]
fn test_item_enum() {
    let item = Item::Enum(ItemEnum {
        ident: Ident::new_static("Result"),
        generics: Generics::default(),
        variants: vec![
            Variant {
                ident: Ident::new_static("Ok"),
                fields: Fields::Unit,
                discriminant: None,
            },
            Variant {
                ident: Ident::new_static("Err"),
                fields: Fields::Unit,
                discriminant: None,
            },
        ],
    });

    match item {
        Item::Enum(ItemEnum { ident, variants, .. }) => {
            assert_eq!(ident.sym, "Result");
            assert_eq!(variants.len(), 2);
            assert_eq!(variants[0].ident.sym, "Ok");
            assert_eq!(variants[1].ident.sym, "Err");
        }
        _ => panic!("Expected Item::Enum"),
    }
}

#[test]
fn test_item_fn() {
    let item = Item::Fn(ItemFn {
        ident: Ident::new_static("main"),
        sig: Signature {
            constness: None,
            asyncness: None,
            unsafety: None,
            abi: None,
            fn_token: Span::call_site(),
            generics: Generics::default(),
            inputs: vec![],
            output: ReturnType::Default,
        },
        block: Block {
            brace_token: Span::call_site(),
            stmts: vec![],
        },
    });

    match item {
        Item::Fn(ItemFn { ident, sig, .. }) => {
            assert_eq!(ident.sym, "main");
            assert!(sig.inputs.is_empty());
            assert!(matches!(sig.output, ReturnType::Default));
        }
        _ => panic!("Expected Item::Fn"),
    }
}

// Generics tests
#[test]
fn test_generics_with_type_param() {
    let generics = Generics {
        lt_token: Some(Span::call_site()),
        params: vec![GenericParam::Type(TypeParam {
            ident: Ident::new_static("T"),
            colon_token: None,
            bounds: vec![],
            eq_token: None,
            default: None,
        })],
        gt_token: Some(Span::call_site()),
        where_clause: None,
    };

    assert_eq!(generics.params.len(), 1);
    match &generics.params[0] {
        GenericParam::Type(TypeParam { ident, .. }) => {
            assert_eq!(ident.sym, "T");
        }
        _ => panic!("Expected Type param"),
    }
}

// TokenStream tests
#[test]
fn test_tokenstream_from_vec() {
    let tokens = vec![TokenTree::Ident(Ident::new_static("foo"))];
    let ts: TokenStream = tokens.into();
    assert_eq!(ts.len(), 1);
}

#[test]
fn test_tokenstream_iter() {
    let tokens = vec![
        TokenTree::Ident(Ident::new_static("fn")),
        TokenTree::Ident(Ident::new_static("main")),
    ];
    let ts: TokenStream = tokens.into();
    let count = ts.iter().count();
    assert_eq!(count, 2);
}

// TokenTree tests
#[test]
fn test_token_tree_from_ident() {
    let ident = Ident::new_static("x");
    let tt: TokenTree = ident.clone().into();
    match tt {
        TokenTree::Ident(i) => assert_eq!(i.sym, "x"),
        _ => panic!("Expected Ident"),
    }
}

#[test]
fn test_token_tree_from_punct() {
    let punct = Punct::new('=', Spacing::Alone);
    let tt: TokenTree = punct.into();
    match tt {
        TokenTree::Punct(p) => assert_eq!(p.ch, '='),
        _ => panic!("Expected Punct"),
    }
}

#[test]
fn test_token_tree_from_literal() {
    let lit = Literal {
        span: Span::call_site(),
        symbol: "42".to_string(),
    };
    let tt: TokenTree = lit.into();
    match tt {
        TokenTree::Literal(l) => assert_eq!(l.symbol, "42"),
        _ => panic!("Expected Literal"),
    }
}

// Lifetime tests
#[test]
fn test_lifetime() {
    let span = Span::call_site();
    let lt = Lifetime::new("'a", span);
    assert_eq!(lt.sym, "'a");
}

// Visibility tests
#[test]
fn test_visibility_inherited() {
    let vis = Visibility::Inherited;
    match vis {
        Visibility::Inherited => {}
        _ => panic!("Expected Inherited"),
    }
}

#[test]
fn test_visibility_public() {
    let vis = Visibility::Public(Span::call_site());
    match vis {
        Visibility::Public(_) => {}
        _ => panic!("Expected Public"),
    }
}

// Fields tests
#[test]
fn test_fields_unit() {
    let fields = Fields::Unit;
    match fields {
        Fields::Unit => {}
        _ => panic!("Expected Unit"),
    }
}

// Pat tests
#[test]
fn test_pat_wildcard() {
    let pat = Pat::Wild;
    match pat {
        Pat::Wild => {}
        _ => panic!("Expected Wild"),
    }
}

#[test]
fn test_pat_ident() {
    let pat = Pat::Ident(PatIdent {
        by_ref: None,
        mutability: None,
        ident: Ident::new_static("x"),
        subpat: None,
    });
    match pat {
        Pat::Ident(PatIdent { ident, .. }) => {
            assert_eq!(ident.sym, "x");
        }
        _ => panic!("Expected Ident"),
    }
}

// BinOp tests
#[test]
fn test_binop_add() {
    let op = BinOp::Add;
    match op {
        BinOp::Add => {}
        _ => panic!("Expected Add"),
    }
}

#[test]
fn test_binop_eq() {
    let op = BinOp::Eq;
    match op {
        BinOp::Eq => {}
        _ => panic!("Expected Eq"),
    }
}

// UnOp tests
#[test]
fn test_unop_not() {
    let op = UnOp::Not;
    match op {
        UnOp::Not => {}
        _ => panic!("Expected Not"),
    }
}

#[test]
fn test_unop_neg() {
    let op = UnOp::Neg;
    match op {
        UnOp::Neg => {}
        _ => panic!("Expected Neg"),
    }
}

// Delimiter tests
#[test]
fn test_delimiter_parenthesis() {
    let d = Delimiter::Parenthesis;
    match d {
        Delimiter::Parenthesis => {}
        _ => panic!("Expected Parenthesis"),
    }
}

#[test]
fn test_delimiter_brace() {
    let d = Delimiter::Brace;
    match d {
        Delimiter::Brace => {}
        _ => panic!("Expected Brace"),
    }
}

// Spacing tests
#[test]
fn test_spacing_alone() {
    let s = Spacing::Alone;
    match s {
        Spacing::Alone => {}
        _ => panic!("Expected Alone"),
    }
}

#[test]
fn test_spacing_joint() {
    let s = Spacing::Joint;
    match s {
        Spacing::Joint => {}
        _ => panic!("Expected Joint"),
    }
}
