use compose_idents::error::Error;
use compose_idents::substitute::substitute_idents;
use compose_idents::substitutions::Substitutions;
use compose_idents::token::{Delimiter, TokenTree};
use compose_idents::value::{Value, ValueKind};
use compose_idents::visitor::AliasSubstitutionVisitor;
use proc_macro2::Span;

fn from_pm2(ts: proc_macro2::TokenStream) -> Vec<TokenTree> {
    ts.into_iter()
        .map(|t| match t {
            proc_macro2::TokenTree::Ident(i) => TokenTree::Ident(i.to_string(), i.span()),
            proc_macro2::TokenTree::Punct(p) => {
                TokenTree::Punct(p.as_char(), p.spacing() == proc_macro2::Spacing::Joint, p.span())
            }
            proc_macro2::TokenTree::Literal(l) => TokenTree::Literal(l.to_string(), l.span()),
            proc_macro2::TokenTree::Group(g) => {
                let d = match g.delimiter() {
                    proc_macro2::Delimiter::Parenthesis => Delimiter::Parenthesis,
                    proc_macro2::Delimiter::Brace => Delimiter::Brace,
                    proc_macro2::Delimiter::Bracket => Delimiter::Bracket,
                    proc_macro2::Delimiter::None => Delimiter::Invisible,
                };
                TokenTree::Group(d, from_pm2(g.stream()), g.span())
            }
        })
        .collect()
}

fn to_pm2(tokens: &[TokenTree]) -> proc_macro2::TokenStream {
    tokens
        .iter()
        .map(|t| -> proc_macro2::TokenTree {
            match t {
                TokenTree::Ident(s, sp) => match s.strip_prefix("r#") {
                    Some(raw) => proc_macro2::Ident::new_raw(raw, *sp).into(),
                    None => proc_macro2::Ident::new(s, *sp).into(),
                },
                TokenTree::Punct(c, joint, sp) => {
                    let spacing = if *joint { proc_macro2::Spacing::Joint } else { proc_macro2::Spacing::Alone };
                    let mut p = proc_macro2::Punct::new(*c, spacing);
                    p.set_span(*sp);
                    p.into()
                }
                TokenTree::Literal(s, sp) => {
                    let mut l: proc_macro2::Literal = s.parse().unwrap();
                    l.set_span(*sp);
                    l.into()
                }
                TokenTree::StrLit(s, sp) => {
                    let mut l = proc_macro2::Literal::string(s);
                    l.set_span(*sp);
                    l.into()
                }
                TokenTree::Group(d, inner, sp) => {
                    let delimiter = match d {
                        Delimiter::Parenthesis => proc_macro2::Delimiter::Parenthesis,
                        Delimiter::Brace => proc_macro2::Delimiter::Brace,
                        Delimiter::Bracket => proc_macro2::Delimiter::Bracket,
                        Delimiter::Invisible => proc_macro2::Delimiter::None,
                    };
                    let mut g = proc_macro2::Group::new(delimiter, to_pm2(inner));
                    g.set_span(*sp);
                    g.into()
                }
            }
        })
        .collect()
}

fn tokens(src: &str) -> Vec<TokenTree> {
    from_pm2(src.parse().unwrap())
}

fn render(t: &[TokenTree]) -> String {
    to_pm2(t).to_string()
}

fn value_of(kind: ValueKind, src: &str) -> Value {
    let ts: proc_macro2::TokenStream = src.parse().unwrap();
    Value { id: 1, kind, tokens: from_pm2(ts.clone()), text: ts.to_string(), span: Span::call_site() }
}

fn ident_value(name: &str) -> Value {
    value_of(ValueKind::Ident(name.to_string()), name)
}

fn subs_with(name: &str, value: Value) -> Substitutions {
    let mut subs = Substitutions::new();
    subs.insert(name.to_string(), value);
    subs
}

fn parses_as_block(t: &Vec<TokenTree>) -> Option<String> {
    syn::parse2::<syn::Block>(to_pm2(t)).err().map(|e| e.to_string())
}

fn parses_as_item_fn(t: &Vec<TokenTree>) -> Option<String> {
    syn::parse2::<syn::ItemFn>(to_pm2(t)).err().map(|e| e.to_string())
}

fn accept_all(_: &Vec<TokenTree>) -> Option<String> {
    None
}

#[test]
fn substituting_single_token() {
    let subs = subs_with("foo", ident_value("bar"));
    let out = substitute_idents(tokens("{ fn foo() -> u32 { 1 } }"), &subs, &parses_as_block).unwrap();
    assert_eq!(render(&out), render(&tokens("{ fn bar() -> u32 { 1 } }")));
}

#[test]
fn substituting_multiple_tokens() {
    let subs = subs_with("foo", ident_value("baz"));
    let out = substitute_idents(tokens("{ let foo = 1; let bar = foo + 1; }"), &subs, &parses_as_block).unwrap();
    assert_eq!(render(&out), render(&tokens("{ let baz = 1; let bar = baz + 1; }")));
}

#[test]
fn substituting_with_multiple_tokens() {
    let subs = subs_with("T", value_of(ValueKind::Type("Result < u32 , String >".to_string()), "Result<u32, String>"));
    let out = substitute_idents(tokens("{ fn foo() -> T { 1 } }"), &subs, &parses_as_block).unwrap();
    assert_eq!(render(&out), render(&tokens("{ fn foo() -> Result<u32, String> { 1 } }")));
}

#[test]
fn string_formatting() {
    let subs = subs_with("name", ident_value("World"));
    let out = substitute_idents(tokens("{ fn foo() -> &str { \"Hello, % name %!\" } }"), &subs, &parses_as_block).unwrap();
    assert_eq!(render(&out), render(&tokens("{ fn foo() -> &str { \"Hello, World!\" } }")));
}

#[test]
fn substitution_yields_error_on_invalid_ast_node() {
    let value = value_of(ValueKind::LitInt("123".to_string()), "123");
    let replacement = value.text.clone();
    let subs = subs_with("T", value);

    let result = substitute_idents(tokens("fn f() -> T { 0 }"), &subs, &parses_as_item_fn);
    assert!(result.is_err());

    let err = result.unwrap_err();

    assert!(matches!(err, Error::SubstitutionError(_, _, _, _)));

    let Error::SubstitutionError(actual_original, actual_replacement, _, _) = err else {
        unreachable!()
    };

    assert_eq!(actual_original, "T");
    assert_eq!(actual_replacement, "123");
    assert_eq!(actual_replacement, replacement);
}

#[test]
fn nested_groups_are_substituted() {
    let subs = subs_with("x", ident_value("y"));
    let out = substitute_idents(tokens("a ( b [ x { x } ] x ) x"), &subs, &accept_all).unwrap();
    assert_eq!(render(&out), render(&tokens("a ( b [ y { y } ] y ) y")));
}

#[test]
fn replacement_tokens_are_not_walked_again() {
    let subs = subs_with("x", value_of(ValueKind::Expr("x + x".to_string()), "x + x"));
    let out = substitute_idents(tokens("x * 2"), &subs, &accept_all).unwrap();
    assert_eq!(render(&out), render(&tokens("x + x * 2")));
}

#[test]
fn empty_replacement_removes_the_alias() {
    let subs = subs_with("gone", value_of(ValueKind::Tokens(String::new()), ""));
    let out = substitute_idents(tokens("a gone b"), &subs, &accept_all).unwrap();
    assert_eq!(render(&out), render(&tokens("a b")));
}

#[test]
fn stream_without_aliases_is_unchanged() {
    let subs = subs_with("zzz", ident_value("y"));
    let input = tokens("fn f(a: u8) -> u8 { a + 1 }");
    let out = substitute_idents(tokens("fn f(a: u8) -> u8 { a + 1 }"), &subs, &|_: &Vec<TokenTree>| Some("never".to_string())).unwrap();
    assert_eq!(render(&out), render(&input));
}

#[test]
fn non_string_literals_are_kept() {
    let subs = subs_with("x", ident_value("y"));
    let out = substitute_idents(tokens("f(1, 'c', b\"x\")"), &subs, &accept_all).unwrap();
    assert_eq!(render(&out), render(&tokens("f(1, 'c', b\"x\")")));
}

#[test]
fn rejected_string_rewrite_without_alias_is_an_internal_error() {
    let subs = Substitutions::new();
    let r = substitute_idents(tokens("\"plain\""), &subs, &|_: &Vec<TokenTree>| Some("no".to_string()));
    match r {
        Err(Error::InternalError(m)) => assert_eq!(m, "Rewriting a string literal made the code invalid"),
        other => panic!("unexpected outcome: {:?}", other),
    }
}

#[test]
fn validator_sees_the_whole_stream() {
    let subs = subs_with("x", ident_value("y"));
    let seen = std::cell::RefCell::new(Vec::new());
    let out = substitute_idents(tokens("a { b ( x ) c } d"), &subs, &|t: &Vec<TokenTree>| {
        seen.borrow_mut().push(render(t));
        None
    })
    .unwrap();
    assert_eq!(render(&out), render(&tokens("a { b ( y ) c } d")));
    assert_eq!(seen.borrow().clone(), vec![render(&tokens("a { b ( y ) c } d"))]);
}

#[test]
fn validator_sees_each_replacement_in_order() {
    let mut subs = Substitutions::new();
    subs.insert("x".to_string(), ident_value("a"));
    subs.insert("y".to_string(), ident_value("b"));
    let seen = std::cell::RefCell::new(Vec::new());
    let out = substitute_idents(tokens("x [ \"%y%\" ] y"), &subs, &|t: &Vec<TokenTree>| {
        seen.borrow_mut().push(render(t));
        None
    })
    .unwrap();
    assert_eq!(render(&out), render(&tokens("a [ \"b\" ] b")));
    assert_eq!(
        seen.borrow().clone(),
        vec![
            render(&tokens("a [ \"%y%\" ] y")),
            render(&tokens("a [ \"b\" ] y")),
            render(&tokens("a [ \"b\" ] b")),
        ]
    );
}

#[test]
fn first_rejection_ends_the_walk() {
    let mut subs = Substitutions::new();
    subs.insert("x".to_string(), ident_value("a"));
    subs.insert("y".to_string(), ident_value("b"));
    let calls = std::cell::RefCell::new(0);
    let r = substitute_idents(tokens("x y x"), &subs, &|_: &Vec<TokenTree>| {
        *calls.borrow_mut() += 1;
        if *calls.borrow() == 2 { Some("second".to_string()) } else { None }
    });
    match r {
        Err(Error::SubstitutionError(name, text, msg, _)) => {
            assert_eq!(name, "y");
            assert_eq!(text, "b");
            assert_eq!(msg, "second");
        }
        other => panic!("unexpected outcome: {:?}", other),
    }
    assert_eq!(*calls.borrow(), 2);
}

#[test]
fn substitution_distributes_over_concatenation() {
    let subs = subs_with("x", value_of(ValueKind::Expr("1 + 2".to_string()), "1 + 2"));
    let left = substitute_idents(tokens("a x"), &subs, &accept_all).unwrap();
    let right = substitute_idents(tokens("( x ) b"), &subs, &accept_all).unwrap();
    let whole = substitute_idents(tokens("a x ( x ) b"), &subs, &accept_all).unwrap();
    let mut joined = left;
    joined.extend(right);
    assert_eq!(render(&whole), render(&joined));
    assert_eq!(render(&whole), render(&tokens("a 1 + 2 ( 1 + 2 ) b")));
}

#[test]
fn visitor_substitutes_and_keeps_no_error() {
    let mut visitor = AliasSubstitutionVisitor::new(subs_with("foo", ident_value("bar")));
    let out = visitor.visit_tokens(tokens("fn foo() {}"), &parses_as_item_fn);
    assert_eq!(render(&out), render(&tokens("fn bar() {}")));
    assert!(visitor.error().is_none());
}

#[test]
fn visitor_stops_after_the_first_error() {
    let mut visitor = AliasSubstitutionVisitor::new(subs_with("T", value_of(ValueKind::LitInt("1".to_string()), "1")));
    let first = visitor.visit_tokens(tokens("fn f() -> T {}"), &parses_as_item_fn);
    assert_eq!(render(&first), render(&tokens("fn f() -> T {}")));
    assert!(matches!(visitor.error(), Some(Error::SubstitutionError(_, _, _, _))));
    let second = visitor.visit_tokens(tokens("let T = 1;"), &accept_all);
    assert_eq!(render(&second), render(&tokens("let T = 1;")));
    assert!(matches!(visitor.error(), Some(Error::SubstitutionError(_, _, _, _))));
}
