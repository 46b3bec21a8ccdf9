use compose_idents::format_string::{format_string, format_value};
use compose_idents::substitutions::Substitutions;
use compose_idents::token::TokenTree;
use compose_idents::value::{Value, ValueKind};
use proc_macro2::Span;

fn ident_value(name: &str) -> Value {
    Value {
        id: 1,
        kind: ValueKind::Ident(name.to_string()),
        tokens: vec![TokenTree::Ident(name.to_string(), Span::call_site())],
        text: name.to_string(),
        span: Span::call_site(),
    }
}

fn subs_with(name: &str, value: Value) -> Substitutions {
    let mut subs = Substitutions::new();
    subs.insert(name.to_string(), value);
    subs
}

#[test]
fn format_placeholder_with_spaces() {
    let subs = subs_with("my_alias", ident_value("foo_bar"));
    assert_eq!(format_string("Hello, % my_alias %!", &subs), "Hello, foo_bar!");
}

#[test]
fn format_placeholder_without_whitespace() {
    let subs = subs_with("my_alias", ident_value("foo_bar"));
    assert_eq!(format_string("Hello, %my_alias%!", &subs), "Hello, foo_bar!");
}

#[test]
fn format_placeholder_irregular_whitespace() {
    let subs = subs_with("my_alias", ident_value("foo_bar"));
    assert_eq!(format_string("Hello, % my_alias  %!", &subs), "Hello, foo_bar!");
}

#[test]
fn format_doc_attribute_text() {
    let subs = subs_with("my_fn", ident_value("foo_bar"));
    assert_eq!(
        format_string("My doc comment for % my_fn %", &subs),
        "My doc comment for foo_bar"
    );
}

#[test]
fn format_escape_percent() {
    let subs = subs_with("my_alias", ident_value("foo_bar"));
    assert_eq!(format_string("Hello, % my_alias % %%", &subs), "Hello, foo_bar %");
}

#[test]
fn format_undefined_alias_kept() {
    let subs = subs_with("my_other_alias", ident_value("foo"));
    assert_eq!(format_string("Hello, % my_alias %!", &subs), "Hello, % my_alias %!");
}

#[test]
fn format_unterminated_placeholder_kept() {
    let subs = subs_with("my_alias", ident_value("foo_bar"));
    assert_eq!(format_string("Hello, % my_alias", &subs), "Hello, % my_alias");
}

#[test]
fn format_percent_non_placeholder() {
    let subs = subs_with("my_alias", ident_value("foo_bar"));
    assert_eq!(format_string("Value: %x", &subs), "Value: %x");
}

#[test]
fn format_without_percent_is_identity() {
    let subs = subs_with("plain", ident_value("other"));
    assert_eq!(format_string("plain text, no placeholders", &subs), "plain text, no placeholders");
    assert_eq!(format_string("", &subs), "");
}

#[test]
fn format_bound_placeholder_alone() {
    let subs = subs_with("x", ident_value("replaced"));
    assert_eq!(format_string("%x%", &subs), "replaced");
}

#[test]
fn format_double_percent_alone() {
    let subs = Substitutions::new();
    assert_eq!(format_string("%%", &subs), "%");
    assert_eq!(format_string("100%% sure", &subs), "100% sure");
}

#[test]
fn format_value_of_ident() {
    assert_eq!(format_value(&ident_value("abc")), "abc");
}

#[test]
fn format_value_of_path_joins_segments() {
    let v = Value {
        id: 2,
        kind: ValueKind::Path(vec!["foo".to_string(), "bar".to_string(), "Baz".to_string()]),
        tokens: Vec::new(),
        text: "foo :: bar :: Baz".to_string(),
        span: Span::call_site(),
    };
    assert_eq!(format_value(&v), "foo::bar::Baz");
}

#[test]
fn format_value_of_string_literal_is_its_contents() {
    let v = Value {
        id: 3,
        kind: ValueKind::LitStr("foo bar".to_string()),
        tokens: vec![TokenTree::Literal("\"foo bar\"".to_string(), Span::call_site())],
        text: "\"foo bar\"".to_string(),
        span: Span::call_site(),
    };
    assert_eq!(format_value(&v), "foo bar");
}

#[test]
fn format_with_path_value() {
    let v = Value {
        id: 4,
        kind: ValueKind::Path(vec!["std".to_string(), "vec".to_string()]),
        tokens: Vec::new(),
        text: "std :: vec".to_string(),
        span: Span::call_site(),
    };
    let subs = subs_with("p", v);
    assert_eq!(format_string("use % p %;", &subs), "use std::vec;");
}

#[test]
fn format_with_no_bindings_keeps_placeholders() {
    let subs = Substitutions::new();
    assert_eq!(format_string("a %b% c % d", &subs), "a %b% c % d");
    assert_eq!(format_string("% x %", &subs), "% x %");
}

#[test]
fn is_whitespace_agrees_with_std_on_every_char() {
    for u in 0u32..=0x10FFFF {
        if let Some(c) = char::from_u32(u) {
            assert_eq!(compose_idents::format_string::is_whitespace(c), c.is_whitespace(), "{:#x}", u);
        }
    }
}
