use compose_idents::ast::Expr;
use compose_idents::error::Error;
use compose_idents::scope::Scope;
use compose_idents::token::TokenTree;
use compose_idents::types::Type;
use compose_idents::value::{Value, ValueKind};
use proc_macro2::Span;
use std::rc::Rc;

fn ident(id: u64, name: &str) -> Rc<Expr> {
    Rc::new(Expr::ValueExpr(Rc::new(Value {
        id,
        kind: ValueKind::Ident(name.to_string()),
        tokens: vec![TokenTree::Ident(name.to_string(), Span::call_site())],
        text: name.to_string(),
        span: Span::call_site(),
    })))
}

#[test]
fn try_add_name_defines_an_alias() {
    let mut scope = Scope::new();
    assert!(scope.try_add_name("a".to_string(), ident(1, "foo")).is_ok());
    let e = scope.get_name("a").unwrap();
    assert_eq!(e.id(), 1);
}

#[test]
fn try_add_name_refuses_a_redefinition() {
    let mut scope = Scope::new();
    assert!(scope.try_add_name("a".to_string(), ident(1, "foo")).is_ok());
    match scope.try_add_name("a".to_string(), ident(2, "bar")) {
        Err(Error::RedefinedNameError(name, _)) => assert_eq!(name, "a"),
        other => panic!("unexpected outcome: {:?}", other),
    }
    assert_eq!(scope.get_name("a").unwrap().id(), 1);
}

#[test]
fn get_name_of_unknown_alias_is_none() {
    let scope = Scope::new();
    assert!(scope.get_name("nothing").is_none());
}

#[test]
fn metadata_mut_records_facts() {
    let mut scope = Scope::new();
    scope.metadata_mut().set_value_metadata(7, Type::Ident, 3);
    let md = scope.metadata_rc().get_value_metadata(7).copied().unwrap();
    assert_eq!(md.target_type, Type::Ident);
    assert_eq!(md.coercion_cost, 3);
    assert!(scope.metadata_rc().get_value_metadata(8).is_none());
}

#[test]
fn deep_clone_is_independent() {
    let mut scope = Scope::new();
    assert!(scope.try_add_name("a".to_string(), ident(1, "foo")).is_ok());
    scope.metadata_mut().set_value_metadata(1, Type::Ident, 0);
    let mut copy = scope.deep_clone();
    assert!(copy.get_name("a").is_some());
    assert!(copy.metadata_rc().get_value_metadata(1).is_some());
    assert!(copy.try_add_name("b".to_string(), ident(2, "bar")).is_ok());
    copy.metadata_mut().set_value_metadata(2, Type::Path, 1);
    assert!(scope.get_name("b").is_none());
    assert!(scope.metadata_rc().get_value_metadata(2).is_none());
}

#[test]
fn bindings_persist_through_later_additions() {
    let mut scope = Scope::new();
    assert!(scope.try_add_name("a".to_string(), ident(1, "foo")).is_ok());
    assert!(scope.try_add_name("b".to_string(), ident(2, "bar")).is_ok());
    assert!(scope.try_add_name("a".to_string(), ident(3, "baz")).is_err());
    assert_eq!(scope.get_name("a").unwrap().id(), 1);
    assert_eq!(scope.get_name("b").unwrap().id(), 2);
    let clone = scope.deep_clone();
    assert!(scope.try_add_name("c".to_string(), ident(4, "qux")).is_ok());
    assert!(clone.get_name("c").is_none());
}
