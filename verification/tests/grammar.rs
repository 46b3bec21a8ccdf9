use compose_idents::ast::Expr;
use compose_idents::error::Error;
use compose_idents::grammar::{parse_compose_item_spec, parse_expr, parse_loop_alias, parse_raw_ast, LoopAlias, TupleItem};
use compose_idents::token::{Delimiter, TokenTree};
use compose_idents::value::ValueKind;
use proc_macro2::Span;

fn from_pm2(ts: proc_macro2::TokenStream) -> Vec<TokenTree> {
    ts.into_iter()
        .map(|t| match t {
            proc_macro2::TokenTree::Ident(i) => TokenTree::Ident(i.to_string(), i.span()),
            proc_macro2::TokenTree::Punct(p) => {
                TokenTree::Punct(p.as_char(), p.spacing() == proc_macro2::Spacing::Joint, p.span())
            }
            proc_macro2::TokenTree::Literal(l) => TokenTree::Literal(l.to_string(), l.span()),
            proc_macro2::TokenTree::Group(g) => {
                let d = match g.delimiter() {
                    proc_macro2::Delimiter::Parenthesis => Delimiter::Parenthesis,
                    proc_macro2::Delimiter::Brace => Delimiter::Brace,
                    proc_macro2::Delimiter::Bracket => Delimiter::Bracket,
                    proc_macro2::Delimiter::None => Delimiter::Invisible,
                };
                TokenTree::Group(d, from_pm2(g.stream()), g.span())
            }
        })
        .collect()
}

fn to_pm2(tokens: &[TokenTree]) -> proc_macro2::TokenStream {
    tokens
        .iter()
        .map(|t| -> proc_macro2::TokenTree {
            match t {
                TokenTree::Ident(s, sp) => match s.strip_prefix("r#") {
                    Some(raw) => proc_macro2::Ident::new_raw(raw, *sp).into(),
                    None => proc_macro2::Ident::new(s, *sp).into(),
                },
                TokenTree::Punct(c, joint, sp) => {
                    let spacing = if *joint { proc_macro2::Spacing::Joint } else { proc_macro2::Spacing::Alone };
                    let mut p = proc_macro2::Punct::new(*c, spacing);
                    p.set_span(*sp);
                    p.into()
                }
                TokenTree::Literal(s, sp) => {
                    let mut l: proc_macro2::Literal = s.parse().unwrap();
                    l.set_span(*sp);
                    l.into()
                }
                TokenTree::StrLit(s, sp) => {
                    let mut l = proc_macro2::Literal::string(s);
                    l.set_span(*sp);
                    l.into()
                }
                TokenTree::Group(d, inner, sp) => {
                    let delimiter = match d {
                        Delimiter::Parenthesis => proc_macro2::Delimiter::Parenthesis,
                        Delimiter::Brace => proc_macro2::Delimiter::Brace,
                        Delimiter::Bracket => proc_macro2::Delimiter::Bracket,
                        Delimiter::Invisible => proc_macro2::Delimiter::None,
                    };
                    let mut g = proc_macro2::Group::new(delimiter, to_pm2(inner));
                    g.set_span(*sp);
                    g.into()
                }
            }
        })
        .collect()
}

fn tokens(src: &str) -> Vec<TokenTree> {
    from_pm2(src.parse().unwrap())
}

fn funcs() -> Vec<String> {
    vec!["upper".to_string(), "concat".to_string(), "lower".to_string()]
}

fn read(src: &str) -> Result<compose_idents::grammar::RawAst, Error> {
    let mut next_id = 0u64;
    parse_raw_ast(&tokens(src), &funcs(), &mut next_id, Span::call_site())
}

fn aliases(ast: &compose_idents::grammar::RawAst) -> Vec<String> {
    ast.spec.as_ref().map(|s| s.items.iter().map(|i| i.alias.clone()).collect()).unwrap_or_default()
}

#[test]
fn raw_ast_block_only() {
    let ast = read("{ fn f() {} }").unwrap();
    assert!(ast.loops.is_empty());
    assert!(ast.spec.is_none());
    assert_eq!(ast.trailing, None);
    assert_eq!(to_pm2(&[ast.block]).to_string(), "{ fn f () { } }");
}

#[test]
fn raw_ast_alias_spec_with_commas() {
    let ast = read("a = foo, b = upper(a), { fn a() {} }").unwrap();
    assert_eq!(aliases(&ast), vec!["a", "b"]);
    let spec = ast.spec.unwrap();
    assert!(matches!(spec.items[0].expr.as_ref(), Expr::ValueExpr(_)));
    match spec.items[1].expr.as_ref() {
        Expr::FuncCallExpr(c) => {
            assert_eq!(c.name, "upper");
            assert_eq!(c.args.len(), 1);
        }
        other => panic!("expected a call, got {:?}", other),
    }
}

#[test]
fn raw_ast_alias_spec_with_semicolons_and_trailing_separator() {
    let ast = read("a = upper(foo); { }").unwrap();
    assert_eq!(aliases(&ast), vec!["a"]);
    assert_eq!(ast.trailing, None);
    let ast = read("a = foo, { },").unwrap();
    assert_eq!(ast.trailing, Some(true));
}

#[test]
fn raw_ast_mixed_separators_are_refused() {
    for src in ["a = upper(x), b = lower(y); { }", "a = foo, { };", "a = upper(x); { },"] {
        match read(src) {
            Err(Error::SyntaxError(m, _)) => assert_eq!(m, "Mixing \",\" and \";\" as separators is not allowed"),
            other => panic!("unexpected outcome for {:?}: {:?}", src, other),
        }
    }
}

#[test]
fn raw_ast_value_before_semicolon_does_not_read() {
    // A value is read up to a comma, so a plain value cannot be followed by `;`.
    assert!(matches!(read("a = foo; { }"), Err(Error::SyntaxError(_, _))));
}

#[test]
fn raw_ast_invalid_inputs() {
    for src in ["a foo { }", "{ } extra", "a = foo,", "a = foo { }", "for x in a { }", "", "for { } in [a] { }"] {
        match read(src) {
            Err(Error::SyntaxError(m, _)) => {
                assert_eq!(m, "Expected optional loops, an optional alias specification and a block", "{:?}", src)
            }
            other => panic!("unexpected outcome for {:?}: {:?}", src, other),
        }
    }
}

#[test]
fn raw_ast_loops() {
    let ast = read("for x in [a, b] for (y, (z, w)) in [(1, (2, 3)), (4, (5, 6))] s = x, { }").unwrap();
    assert_eq!(ast.loops.len(), 2);
    assert!(matches!(&ast.loops[0].alias, LoopAlias::Name(n) if n == "x"));
    assert_eq!(ast.loops[0].values.len(), 2);
    match &ast.loops[1].alias {
        LoopAlias::Tuple(parts) => {
            assert_eq!(parts.len(), 2);
            assert!(matches!(&parts[1], LoopAlias::Tuple(inner) if inner.len() == 2));
        }
        other => panic!("expected a tuple alias, got {:?}", other),
    }
    assert!(matches!(&ast.loops[1].values[0], TupleItem::Tuple(items) if items.len() == 2));
    assert_eq!(aliases(&ast), vec!["s"]);
}

#[test]
fn expr_reads_calls_of_known_functions() {
    let mut next_id = 0u64;
    let t = tokens("concat(foo, Result<i32, String>), rest");
    let (e, n) = parse_expr(&t, &funcs(), &mut next_id, Span::call_site());
    assert_eq!(n, 2);
    match e.as_ref() {
        Expr::FuncCallExpr(c) => {
            assert_eq!(c.name, "concat");
            assert_eq!(c.args.len(), 2);
            assert!(c.tokens.is_some());
        }
        other => panic!("expected a call, got {:?}", other),
    }
    let t = tokens("unknown(1), rest");
    let (e, n) = parse_expr(&t, &funcs(), &mut next_id, Span::call_site());
    assert_eq!(n, 2);
    assert!(matches!(e.as_ref(), Expr::ValueExpr(_)));
}

#[test]
fn parse_func_upper() {
    let mut next_id = 0u64;
    let t = tokens("upper(foo)");
    let (e, n) = parse_expr(&t, &funcs(), &mut next_id, Span::call_site());
    assert_eq!(n, 2);
    match e.as_ref() {
        Expr::FuncCallExpr(c) => {
            assert_eq!(c.name, "upper");
            assert_eq!(c.args.len(), 1);
            match c.args[0].as_ref() {
                Expr::ValueExpr(v) => assert!(matches!(v.kind, ValueKind::Ident(ref i) if i == "foo")),
                other => panic!("expected a value, got {:?}", other),
            }
        }
        other => panic!("expected a call, got {:?}", other),
    }
}

#[test]
fn parse_alias_value_ident_terminated() {
    let mut next_id = 0u64;
    let t = tokens("foo,");
    let (e, n) = parse_expr(&t, &funcs(), &mut next_id, Span::call_site());
    assert_eq!(n, 1);
    match e.as_ref() {
        Expr::ValueExpr(v) => assert!(matches!(v.kind, ValueKind::Ident(ref i) if i == "foo")),
        other => panic!("expected a value, got {:?}", other),
    }
    assert_eq!(to_pm2(&t[n..]).to_string(), ",");
}

#[test]
fn call_arguments_are_read_in_order() {
    let mut next_id = 0u64;
    let t = tokens("concat(a, upper(b), 3)");
    let (e, _) = parse_expr(&t, &funcs(), &mut next_id, Span::call_site());
    let Expr::FuncCallExpr(c) = e.as_ref() else { panic!("expected a call") };
    assert_eq!(c.args.len(), 3);
    assert!(matches!(c.args[0].as_ref(), Expr::ValueExpr(v) if matches!(v.kind, ValueKind::Ident(ref i) if i == "a")));
    assert!(matches!(c.args[1].as_ref(), Expr::FuncCallExpr(inner) if inner.name == "upper" && inner.args.len() == 1));
    assert!(matches!(c.args[2].as_ref(), Expr::ValueExpr(v) if matches!(v.kind, ValueKind::LitInt(ref i) if i == "3")));
    let Some(raw) = &c.tokens else { panic!("expected the raw argument") };
    assert!(matches!(raw.as_ref(), Expr::ValueExpr(v) if matches!(v.kind, ValueKind::Raw(ref s) if s == "a , upper (b) , 3")));
}

#[test]
fn call_arguments_fall_back_to_raw_tokens() {
    let mut next_id = 0u64;
    let t = tokens("upper(a b, c)");
    let (e, _) = parse_expr(&t, &funcs(), &mut next_id, Span::call_site());
    let Expr::FuncCallExpr(c) = e.as_ref() else { panic!("expected a call") };
    assert_eq!(c.args.len(), 2);
    assert!(matches!(c.args[0].as_ref(), Expr::ValueExpr(v) if matches!(v.kind, ValueKind::Tokens(ref s) if s == "a b")));
    assert!(matches!(c.args[1].as_ref(), Expr::ValueExpr(v) if matches!(v.kind, ValueKind::Ident(ref s) if s == "c")));
}

#[test]
fn call_with_unreadable_arguments_has_none() {
    let mut next_id = 0u64;
    let t = tokens("concat(upper(x) y)");
    let (e, n) = parse_expr(&t, &funcs(), &mut next_id, Span::call_site());
    assert_eq!(n, 2);
    let Expr::FuncCallExpr(c) = e.as_ref() else { panic!("expected a call") };
    assert_eq!(c.name, "concat");
    assert!(c.args.is_empty());
    let Some(raw) = &c.tokens else { panic!("expected the raw argument") };
    assert!(matches!(raw.as_ref(), Expr::ValueExpr(v) if matches!(v.kind, ValueKind::Raw(ref s) if s == "upper (x) y")));
}

fn alias_names(a: &LoopAlias) -> String {
    match a {
        LoopAlias::Name(n) => n.clone(),
        LoopAlias::Tuple(parts) => format!("({})", parts.iter().map(alias_names).collect::<Vec<_>>().join(",")),
    }
}

#[test]
fn loop_alias_reads_names_and_tuples() {
    let t = tokens("(a, (b, c), d,)");
    let a = parse_loop_alias(&t[0]).unwrap();
    assert_eq!(alias_names(&a), "(a,(b,c),d)");
    let t = tokens("x");
    assert_eq!(alias_names(&parse_loop_alias(&t[0]).unwrap()), "x");
    for src in ["(a b)", "[a]", "(a, fn)", "1"] {
        let t = tokens(src);
        assert!(parse_loop_alias(&t[0]).is_none(), "{:?}", src);
    }
}

fn read_item(src: &str) -> Result<(Vec<compose_idents::grammar::LoopSpecItem>, Option<compose_idents::ast::AliasSpec>), Error> {
    let mut next_id = 0u64;
    parse_compose_item_spec(&tokens(src), &funcs(), &mut next_id, Span::call_site())
}

#[test]
fn compose_item_spec_reads_loops_and_aliases() {
    let (loops, spec) = read_item("for x in [a, b] name = upper(x),").unwrap();
    assert_eq!(loops.len(), 1);
    assert_eq!(loops[0].values.len(), 2);
    let spec = spec.unwrap();
    assert_eq!(spec.items.len(), 1);
    assert_eq!(spec.items[0].alias, "name");
    let (loops, spec) = read_item("a = foo, b = bar").unwrap();
    assert!(loops.is_empty());
    assert_eq!(spec.unwrap().items.len(), 2);
    let (loops, spec) = read_item("a = upper(foo); b = lower(bar);").unwrap();
    assert!(loops.is_empty());
    assert_eq!(spec.unwrap().items.len(), 2);
    let (loops, spec) = read_item("for x in [a]").unwrap();
    assert_eq!(loops.len(), 1);
    assert!(spec.is_none());
    let (loops, spec) = read_item("").unwrap();
    assert!(loops.is_empty() && spec.is_none());
}

#[test]
fn compose_item_spec_errors() {
    match read_item("for x in [a, b],") {
        Err(Error::SyntaxError(m, _)) => assert_eq!(m, "Trailing separator after loops is not allowed in #[compose_item]."),
        other => panic!("unexpected outcome: {:?}", other),
    }
    match read_item("a = upper(x), b = lower(y); c = d") {
        Err(Error::SyntaxError(m, _)) => assert_eq!(m, "Mixing \",\" and \";\" as separators is not allowed"),
        other => panic!("unexpected outcome: {:?}", other),
    }
    for src in ["{ }", ",", "a = foo, , x", "a foo"] {
        match read_item(src) {
            Err(Error::SyntaxError(m, _)) => assert_eq!(m, "Expected optional loops and an optional alias specification"),
            other => panic!("unexpected outcome for {:?}: {:?}", src, other),
        }
    }
}

#[test]
fn string_contents_print_as_a_literal() {
    let t = vec![TokenTree::StrLit("a\"b\\c".to_string(), Span::call_site())];
    let printed = compose_idents::token::print_prefix(&t, 1);
    assert_eq!(printed, "\"a\\\"b\\\\c\"");
    let reparsed: syn::LitStr = syn::parse_str(&printed).unwrap();
    assert_eq!(reparsed.value(), "a\"b\\c");
}

#[test]
fn parse_alias_value_ident() {
    let mut next_id = 0u64;
    let t = tokens("foo");
    let (e, n) = parse_expr(&t, &funcs(), &mut next_id, Span::call_site());
    assert_eq!(n, 1);
    assert!(matches!(e.as_ref(), Expr::ValueExpr(v) if matches!(v.kind, ValueKind::Ident(_))));
}
