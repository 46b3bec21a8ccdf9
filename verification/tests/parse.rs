use compose_idents::parse::parse_terminated_value;
use compose_idents::token::{Delimiter, TokenTree};
use compose_idents::types::Type;
use compose_idents::value::{Value, ValueKind};
use quote::ToTokens;
use proc_macro2::Span;

fn from_pm2(ts: proc_macro2::TokenStream) -> Vec<TokenTree> {
    ts.into_iter()
        .map(|t| match t {
            proc_macro2::TokenTree::Ident(i) => TokenTree::Ident(i.to_string(), i.span()),
            proc_macro2::TokenTree::Punct(p) => {
                TokenTree::Punct(p.as_char(), p.spacing() == proc_macro2::Spacing::Joint, p.span())
            }
            proc_macro2::TokenTree::Literal(l) => TokenTree::Literal(l.to_string(), l.span()),
            proc_macro2::TokenTree::Group(g) => {
                let d = match g.delimiter() {
                    proc_macro2::Delimiter::Parenthesis => Delimiter::Parenthesis,
                    proc_macro2::Delimiter::Brace => Delimiter::Brace,
                    proc_macro2::Delimiter::Bracket => Delimiter::Bracket,
                    proc_macro2::Delimiter::None => Delimiter::Invisible,
                };
                TokenTree::Group(d, from_pm2(g.stream()), g.span())
            }
        })
        .collect()
}

fn to_pm2(tokens: &[TokenTree]) -> proc_macro2::TokenStream {
    tokens
        .iter()
        .map(|t| -> proc_macro2::TokenTree {
            match t {
                TokenTree::Ident(s, sp) => match s.strip_prefix("r#") {
                    Some(raw) => proc_macro2::Ident::new_raw(raw, *sp).into(),
                    None => proc_macro2::Ident::new(s, *sp).into(),
                },
                TokenTree::Punct(c, joint, sp) => {
                    let spacing = if *joint { proc_macro2::Spacing::Joint } else { proc_macro2::Spacing::Alone };
                    let mut p = proc_macro2::Punct::new(*c, spacing);
                    p.set_span(*sp);
                    p.into()
                }
                TokenTree::Literal(s, sp) => {
                    let mut l: proc_macro2::Literal = s.parse().unwrap();
                    l.set_span(*sp);
                    l.into()
                }
                TokenTree::StrLit(s, sp) => {
                    let mut l = proc_macro2::Literal::string(s);
                    l.set_span(*sp);
                    l.into()
                }
                TokenTree::Group(d, inner, sp) => {
                    let delimiter = match d {
                        Delimiter::Parenthesis => proc_macro2::Delimiter::Parenthesis,
                        Delimiter::Brace => proc_macro2::Delimiter::Brace,
                        Delimiter::Bracket => proc_macro2::Delimiter::Bracket,
                        Delimiter::Invisible => proc_macro2::Delimiter::None,
                    };
                    let mut g = proc_macro2::Group::new(delimiter, to_pm2(inner));
                    g.set_span(*sp);
                    g.into()
                }
            }
        })
        .collect()
}

fn tokens(src: &str) -> Vec<TokenTree> {
    from_pm2(src.parse().unwrap())
}

/// The value's tokens as syn prints the syntax node of its category, which is
/// how the value itself is written out.
fn reprint(value: &Value) -> String {
    let ts = to_pm2(&value.tokens);
    match value.type_() {
        Type::Path => syn::parse2::<syn::Path>(ts).unwrap().to_token_stream().to_string(),
        Type::Type => syn::parse2::<syn::Type>(ts).unwrap().to_token_stream().to_string(),
        Type::Expr => syn::parse2::<syn::Expr>(ts).unwrap().to_token_stream().to_string(),
        _ => ts.to_string(),
    }
}

fn check(input: &str, expected_value: &str, expected_type: Type, expected_rest: &str) {
    let t = tokens(input);
    let (value, n) = parse_terminated_value(&t, 7, Span::call_site());
    assert_eq!(reprint(&value), expected_value, "value of {:?}", input);
    assert_eq!(value.type_(), expected_type, "type of {:?}", input);
    assert_eq!(to_pm2(&t[n..]).to_string(), expected_rest, "rest of {:?}", input);
    assert_eq!(value.id, 7);
}

#[test]
fn terminated_value_parsing_ident_simple() {
    check("foo, 42", "foo", Type::Ident, ", 42");
}

#[test]
fn terminated_value_parsing_ident_type() {
    check("u32, 42", "u32", Type::Ident, ", 42");
}

#[test]
fn terminated_value_parsing_ident_underscore() {
    check("_, 42", "_", Type::Ident, ", 42");
}

#[test]
fn terminated_value_parsing_ident_camel_case() {
    check("FooBar, 42", "FooBar", Type::Ident, ", 42");
}

#[test]
fn terminated_value_parsing_ident_with_digits() {
    check("foo123, 42", "foo123", Type::Ident, ", 42");
}

#[test]
fn terminated_value_parsing_ident_leading_underscore() {
    check("_foo, 42", "_foo", Type::Ident, ", 42");
}

#[test]
fn terminated_value_parsing_ident_double_underscore() {
    check("__, 42", "__", Type::Ident, ", 42");
}

#[test]
fn terminated_value_parsing_ident_snake_mixed() {
    check("foo_bar_123, 42", "foo_bar_123", Type::Ident, ", 42");
}

#[test]
fn terminated_value_parsing_ident_raw_keyword() {
    check("r#type, 42", "r#type", Type::Ident, ", 42");
}

#[test]
fn terminated_value_parsing_ident_option_plain() {
    check("Option, 42", "Option", Type::Ident, ", 42");
}

#[test]
fn terminated_value_parsing_path_simple() {
    check("foo::bar, 42", "foo :: bar", Type::Path, ", 42");
}

#[test]
fn terminated_value_parsing_path_type_generic() {
    check("Result<i32, String>, 42", "Result < i32 , String >", Type::Path, ", 42");
}

#[test]
fn terminated_value_parsing_path_type_generic_turbofish() {
    check("Vec::<i32>, 42", "Vec :: < i32 >", Type::Path, ", 42");
}

#[test]
fn terminated_value_parsing_path_type_generic_lifetime() {
    check("std::slice::Iter<'a, T>, 42", "std :: slice :: Iter < 'a , T >", Type::Path, ", 42");
}

#[test]
fn terminated_value_parsing_path_generic_nested() {
    check("a::b::C<D<E<F>>, G<H>>, 42", "a :: b :: C < D < E < F > > , G < H > >", Type::Path, ", 42");
}

#[test]
fn terminated_value_parsing_path_root_crate() {
    check("crate::foo, 42", "crate :: foo", Type::Path, ", 42");
}

#[test]
fn terminated_value_parsing_path_expr() {
    check("Option::<i32>::None, 42", "Option :: < i32 > :: None", Type::Path, ", 42");
}

#[test]
fn terminated_value_parsing_path_raw_segments() {
    check("r#type::r#match::r#dyn, 42", "r#type :: r#match :: r#dyn", Type::Path, ", 42");
}

#[test]
fn terminated_value_parsing_type_array() {
    check("[u8; 32], 42", "[u8 ; 32]", Type::Type, ", 42");
}

#[test]
fn terminated_value_parsing_type_array_const_expr() {
    check("[u8; 1 + 2], 42", "[u8 ; 1 + 2]", Type::Type, ", 42");
}

#[test]
fn terminated_value_parsing_type_never() {
    check("!, 42", "!", Type::Type, ", 42");
}

#[test]
fn terminated_value_parsing_type_tuple() {
    check("(u32, u32), 42", "(u32 , u32)", Type::Type, ", 42");
}

#[test]
fn terminated_value_parsing_type_unit() {
    check("(), 42", "()", Type::Type, ", 42");
}

#[test]
fn terminated_value_parsing_type_paren_wrapped() {
    check("(T), 42", "(T)", Type::Type, ", 42");
}

#[test]
fn terminated_value_parsing_type_macro_simple() {
    check("ty!(u32), 42", "ty ! (u32)", Type::Type, ", 42");
}

#[test]
fn terminated_value_parsing_type_macro_nested_args() {
    check("ty!(Result<u8, E>), 42", "ty ! (Result < u8 , E >)", Type::Type, ", 42");
}

#[test]
fn terminated_value_parsing_type_ref() {
    check("&'a mut T, 42", "& 'a mut T", Type::Type, ", 42");
}

#[test]
fn terminated_value_parsing_type_fn() {
    check("fn(i32) -> i32, 42", "fn (i32) -> i32", Type::Type, ", 42");
}

#[test]
fn terminated_value_parsing_type_fn_zero_args() {
    check("fn(), 42", "fn ()", Type::Type, ", 42");
}

#[test]
fn terminated_value_parsing_type_fn_hrtb() {
    check("for<'a> fn(&'a str) -> &'a str, 42", "for < 'a > fn (& 'a str) -> & 'a str", Type::Type, ", 42");
}

#[test]
fn terminated_value_parsing_type_fn_extern_c() {
    check("extern \"C\" fn(i32) -> i32, 42", "extern \"C\" fn (i32) -> i32", Type::Type, ", 42");
}

#[test]
fn terminated_value_parsing_type_dyn_simple() {
    check("dyn Display, 42", "dyn Display", Type::Type, ", 42");
}

#[test]
fn terminated_value_parsing_type_dyn_bounds() {
    check("dyn Iterator<Item = u8> + Send + 'static, 42", "dyn Iterator < Item = u8 > + Send + 'static", Type::Type, ", 42");
}

#[test]
fn terminated_value_parsing_type_dyn_hrtb_fn() {
    check("dyn for<'a> Fn(&'a T) + Send, 42", "dyn for < 'a > Fn (& 'a T) + Send", Type::Type, ", 42");
}

#[test]
fn terminated_value_parsing_type_impl_trait() {
    check("impl Iterator<Item=u8>, 42", "impl Iterator < Item = u8 >", Type::Type, ", 42");
}

#[test]
fn terminated_value_parsing_type_impl_multiple_bounds() {
    check("impl Read + Write + 'a, 42", "impl Read + Write + 'a", Type::Type, ", 42");
}

#[test]
fn terminated_value_parsing_type_qual_path_assoc() {
    check("<T as Iterator>::Item, 42", "< T as Iterator > :: Item", Type::Type, ", 42");
}

#[test]
fn terminated_value_parsing_expr_unary_not() {
    check("!flag, 42", "! flag", Type::Expr, ", 42");
}

#[test]
fn terminated_value_parsing_expr_binary() {
    check("2 + 2, 42", "2 + 2", Type::Expr, ", 42");
}

#[test]
fn terminated_value_parsing_expr_if_else() {
    check("if cond { 1 } else { 0 }, 42", "if cond { 1 } else { 0 }", Type::Expr, ", 42");
}

#[test]
fn terminated_value_parsing_expr_if_let() {
    check("if let Some(x) = opt { x } else { 0 }, 42", "if let Some (x) = opt { x } else { 0 }", Type::Expr, ", 42");
}

#[test]
fn terminated_value_parsing_expr_match() {
    check("match x { 0 => 1, _ => 2 }, 42", "match x { 0 => 1 , _ => 2 }", Type::Expr, ", 42");
}

#[test]
fn terminated_value_parsing_expr_block() {
    check("{ let x = 1; x }, 42", "{ let x = 1 ; x }", Type::Expr, ", 42");
}

#[test]
fn terminated_value_parsing_expr_async_block() {
    check("async { 1 + 2 }, 42", "async { 1 + 2 }", Type::Expr, ", 42");
}

#[test]
fn terminated_value_parsing_expr_unsafe_block() {
    check("unsafe { do_something() }, 42", "unsafe { do_something () }", Type::Expr, ", 42");
}

#[test]
fn terminated_value_parsing_expr_call_with_args() {
    check("foo(1, 2), 42", "foo (1 , 2)", Type::Expr, ", 42");
}

#[test]
fn terminated_value_parsing_expr_method_call() {
    check("obj.method(1, 2), 42", "obj . method (1 , 2)", Type::Expr, ", 42");
}

#[test]
fn terminated_value_parsing_expr_method_call_turbofish() {
    check("obj.method::<T>(x), 42", "obj . method :: < T > (x)", Type::Expr, ", 42");
}

#[test]
fn terminated_value_parsing_expr_await_call() {
    check("make_future().await, 42", "make_future () . await", Type::Expr, ", 42");
}

#[test]
fn terminated_value_parsing_expr_array_simple() {
    check("[1, 2, 3], 42", "[1 , 2 , 3]", Type::Expr, ", 42");
}

#[test]
fn terminated_value_parsing_expr_array_repeat() {
    check("[0; N], 42", "[0 ; N]", Type::Expr, ", 42");
}

#[test]
fn terminated_value_parsing_expr_array_index() {
    check("arr[0], 42", "arr [0]", Type::Expr, ", 42");
}

#[test]
fn terminated_value_parsing_expr_tuple_struct_literal() {
    check("Point(1, 2), 42", "Point (1 , 2)", Type::Expr, ", 42");
}

#[test]
fn terminated_value_parsing_expr_field_access() {
    check("s.field, 42", "s . field", Type::Expr, ", 42");
}

#[test]
fn terminated_value_parsing_expr_closure() {
    check("|| 42, 42", "| | 42", Type::Expr, ", 42");
}

#[test]
fn terminated_value_parsing_expr_return() {
    check("return 5, 42", "return 5", Type::Expr, ", 42");
}

#[test]
fn terminated_value_parsing_expr_pathlike_1() {
    check("foo::<i32>(), 42", "foo :: < i32 > ()", Type::Expr, ", 42");
}

#[test]
fn terminated_value_parsing_expr_pathlike_2() {
    check("Option::<i32>::Some(1), 42", "Option :: < i32 > :: Some (1)", Type::Expr, ", 42");
}

#[test]
fn terminated_value_parsing_expr_macro_chained_method() {
    check("vec![1, 2].len(), 42", "vec ! [1 , 2] . len ()", Type::Expr, ", 42");
}

#[test]
fn terminated_value_parsing_expr_path_call_turbofish() {
    check("Option::<i32>::Some(1), 42", "Option :: < i32 > :: Some (1)", Type::Expr, ", 42");
}

#[test]
fn terminated_value_parsing_expr_trait_fn_call() {
    check("Trait::method(x), 42", "Trait :: method (x)", Type::Expr, ", 42");
}

#[test]
fn terminated_value_parsing_litint_dec() {
    check("123, 42", "123", Type::LitInt, ", 42");
}

#[test]
fn terminated_value_parsing_litint_underscore() {
    check("1_000_000, 42", "1_000_000", Type::LitInt, ", 42");
}

#[test]
fn terminated_value_parsing_litint_hex() {
    check("0xFF, 42", "0xFF", Type::LitInt, ", 42");
}

#[test]
fn terminated_value_parsing_litint_bin_suffix() {
    check("0b1010_1010u8, 42", "0b1010_1010u8", Type::LitInt, ", 42");
}

#[test]
fn terminated_value_parsing_litint_suffix_usize() {
    check("0usize, 42", "0usize", Type::LitInt, ", 42");
}

#[test]
fn terminated_value_parsing_litstr_simple() {
    check("\"hello\", 42", "\"hello\"", Type::LitStr, ", 42");
}

#[test]
fn terminated_value_parsing_litstr_escape() {
    check("\"a \\\"quote\\\"\", 42", "\"a \\\"quote\\\"\"", Type::LitStr, ", 42");
}

#[test]
fn terminated_value_parsing_litstr_unicode() {
    check("\"😀\", 42", "\"😀\"", Type::LitStr, ", 42");
}

#[test]
fn terminated_value_parsing_litstr_raw() {
    check("r\"no escapes\", 42", "r\"no escapes\"", Type::LitStr, ", 42");
}

#[test]
fn terminated_value_parsing_litstr_raw_hashes() {
    check("r#\"he\"llo\"#, 42", "r#\"he\"llo\"#", Type::LitStr, ", 42");
}

#[test]
fn terminated_value_parsing_tokens_simple() {
    check("pub fn foo() -> u32 { 42 }, 42", "pub fn foo () -> u32 { 42 }", Type::Tokens, ", 42");
}

#[test]
fn terminated_value_parsing_tokens_let_stmt() {
    check("let x = 1;, 42", "let x = 1 ;", Type::Tokens, ", 42");
}

#[test]
fn terminated_value_parsing_tokens_use_stmt() {
    check("use crate::path::Item;, 42", "use crate :: path :: Item ;", Type::Tokens, ", 42");
}

#[test]
fn terminated_value_parsing_tokens_keyword() {
    check("fn, 42", "fn", Type::Tokens, ", 42");
}

#[test]
fn terminated_value_parsing_tokens_attr_struct() {
    check("#[derive(Debug)] struct S;, 42", "# [derive (Debug)] struct S ;", Type::Tokens, ", 42");
}

#[test]
fn terminated_value_parsing_tokens_impl_block() {
    check("impl Trait for T {}, 42", "impl Trait for T { }", Type::Tokens, ", 42");
}

#[test]
fn terminated_value_parsing_tokens_where_clause() {
    check("where T: Trait, 42", "where T : Trait", Type::Tokens, ", 42");
}

#[test]
fn terminated_value_parsing_tokens_angle_params_one() {
    check("<'a>, 42", "<'a >", Type::Tokens, ", 42");
}

#[test]
fn terminated_value_kinds_hold_the_reading() {
    let t = tokens("\"a b\", 1");
    let (value, n) = parse_terminated_value(&t, 1, Span::call_site());
    assert_eq!(n, 1);
    assert!(matches!(value.kind, ValueKind::LitStr(ref s) if s == "a b"));
    let t = tokens("std::vec::Vec, 1");
    let (value, _) = parse_terminated_value(&t, 1, Span::call_site());
    assert!(matches!(value.kind, ValueKind::Path(ref s) if s == &vec!["std".to_string(), "vec".to_string(), "Vec".to_string()]));
    let t = tokens("");
    let (value, n) = parse_terminated_value(&t, 1, Span::call_site());
    assert_eq!(n, 0);
    assert!(matches!(value.kind, ValueKind::Tokens(ref s) if s.is_empty()));
}

#[test]
fn parse_arg_ident() {
    let t = tokens("foo");
    let (value, n) = parse_terminated_value(&t, 1, Span::call_site());
    assert_eq!(n, 1);
    assert!(matches!(value.kind, ValueKind::Ident(ref i) if i == "foo"));
}

#[test]
fn parse_arg_ident_terminated() {
    let t = tokens("foo,");
    let (value, n) = parse_terminated_value(&t, 1, Span::call_site());
    assert!(matches!(value.kind, ValueKind::Ident(ref i) if i == "foo"));
    assert_eq!(to_pm2(&t[n..]).to_string(), ",");
}
