use compose_idents::ast::{AliasSpec, AliasSpecItem, Call, Expr};
use compose_idents::env::{Coercion, Environment, Func};
use compose_idents::error::Error;
use compose_idents::interpreter::Interpreter;
use compose_idents::resolve::{resolve_arg, resolve_call_for_func, Resolve};
use compose_idents::scope::Scope;
use compose_idents::token::TokenTree;
use compose_idents::types::Type;
use compose_idents::value::{Value, ValueKind};
use proc_macro2::Span;
use std::rc::Rc;

fn ident(id: u64, name: &str) -> Rc<Expr> {
    Rc::new(Expr::ValueExpr(Rc::new(Value {
        id,
        kind: ValueKind::Ident(name.to_string()),
        tokens: vec![TokenTree::Ident(name.to_string(), Span::call_site())],
        text: name.to_string(),
        span: Span::call_site(),
    })))
}

fn lit_int(id: u64, text: &str) -> Rc<Expr> {
    Rc::new(Expr::ValueExpr(Rc::new(Value {
        id,
        kind: ValueKind::LitInt(text.to_string()),
        tokens: vec![TokenTree::Literal(text.to_string(), Span::call_site())],
        text: text.to_string(),
        span: Span::call_site(),
    })))
}

fn lit_str(id: u64, contents: &str) -> Rc<Expr> {
    let text = format!("{:?}", contents);
    Rc::new(Expr::ValueExpr(Rc::new(Value {
        id,
        kind: ValueKind::LitStr(contents.to_string()),
        tokens: vec![TokenTree::Literal(text.clone(), Span::call_site())],
        text,
        span: Span::call_site(),
    })))
}

fn func(id: u64, name: &str, arg_types: Vec<Type>, variadic: bool, out_type: Type, signature: &str) -> Rc<Func> {
    Rc::new(Func { id, name: name.to_string(), arg_types, variadic, out_type, signature: signature.to_string() })
}

fn environment() -> Environment {
    Environment {
        funcs: vec![
            func(1, "upper", vec![Type::Ident], false, Type::Ident, "upper(ident) -> ident"),
            func(2, "to_ident", vec![Type::Ident], false, Type::Ident, "to_ident(ident) -> ident"),
            func(3, "to_ident", vec![Type::LitInt], false, Type::Ident, "to_ident(int) -> ident"),
            func(4, "concat", vec![Type::Ident], true, Type::Ident, "concat(ident...) -> ident"),
            func(5, "to_str", vec![Type::Ident], false, Type::LitStr, "to_str(ident) -> str"),
            func(6, "twin", vec![Type::Ident], false, Type::Ident, "twin(ident) -> ident"),
            func(7, "twin", vec![Type::Ident], false, Type::Ident, "twin(ident) -> ident"),
            func(8, "mix", vec![Type::Ident], true, Type::Ident, "mix(ident...) -> ident"),
            func(9, "mix", vec![Type::Ident], false, Type::Ident, "mix(ident) -> ident"),
        ],
        coercions: vec![
            Coercion { from: Type::LitInt, to: Type::Ident, cost: 2 },
            Coercion { from: Type::Ident, to: Type::Path, cost: 1 },
        ],
    }
}

fn call(id: u64, name: &str, args: Vec<Rc<Expr>>, text: &str) -> Call {
    Call { id, name: name.to_string(), args, tokens: None, text: text.to_string(), span: Span::call_site() }
}

fn value_of(e: &Rc<Expr>) -> &Value {
    match e.as_ref() {
        Expr::ValueExpr(v) => v,
        Expr::FuncCallExpr(_) => panic!("not a value"),
    }
}

#[test]
fn value_resolves_at_its_own_type() {
    let env = environment();
    let mut scope = Scope::new();
    let e = ident(10, "foo");
    assert!(value_of(&e).resolve(&env, &mut scope, None).is_ok());
    let md = scope.metadata_rc().get_value_metadata(10).copied().unwrap();
    assert_eq!(md.target_type, Type::Ident);
    assert_eq!(md.coercion_cost, 0);
}

#[test]
fn value_coerces_at_cost_of_the_rule() {
    let env = environment();
    let mut scope = Scope::new();
    let e = lit_int(11, "123");
    assert!(value_of(&e).resolve(&env, &mut scope, Some(Type::Ident)).is_ok());
    let md = scope.metadata_rc().get_value_metadata(11).copied().unwrap();
    assert_eq!(md.target_type, Type::Ident);
    assert_eq!(md.coercion_cost, 2);
}

#[test]
fn value_without_coercion_is_an_error() {
    let env = environment();
    let mut scope = Scope::new();
    let e = lit_str(12, "x");
    let r = value_of(&e).resolve(&env, &mut scope, Some(Type::Ident));
    assert!(matches!(r, Err(Error::CoercionError(Type::LitStr, Type::Ident))));
    assert!(scope.metadata_rc().get_value_metadata(12).is_none());
}

#[test]
fn call_of_undefined_function_is_an_error() {
    let env = environment();
    let mut scope = Scope::new();
    let c = call(20, "nope", vec![ident(21, "a")], "nope(a)");
    match c.resolve(&env, &mut scope, None) {
        Err(Error::UndefinedFunctionError(name, _)) => assert_eq!(name, "nope"),
        other => panic!("unexpected outcome: {:?}", other),
    }
}

#[test]
fn call_with_wrong_arity_is_a_signature_error() {
    let env = environment();
    let mut scope = Scope::new();
    let c = call(22, "upper", vec![ident(23, "a"), ident(24, "b")], "upper(a, b)");
    match c.resolve(&env, &mut scope, None) {
        Err(Error::SignatureError(sigs, text, _)) => {
            assert_eq!(sigs, vec!["upper(ident) -> ident".to_string()]);
            assert_eq!(text, "upper(a, b)");
        }
        other => panic!("unexpected outcome: {:?}", other),
    }
    assert!(scope.metadata_rc().get_call_metadata(22).is_none());
}

#[test]
fn call_binds_the_cheapest_signature() {
    let env = environment();
    let mut scope = Scope::new();
    let c = call(30, "to_ident", vec![lit_int(31, "7")], "to_ident(7)");
    assert!(c.resolve(&env, &mut scope, None).is_ok());
    let md = scope.metadata_rc().get_call_metadata(30).unwrap();
    assert_eq!(md.func.id, 3);
    assert_eq!(md.coercion_cost, 0);
    assert_eq!(md.target_type, Type::Ident);
    assert_eq!(md.args.len(), 1);
    let arg_md = scope.metadata_rc().get_value_metadata(31).copied().unwrap();
    assert_eq!(arg_md.target_type, Type::LitInt);
}

#[test]
fn call_skips_signatures_that_do_not_fit() {
    let env = environment();
    let mut scope = Scope::new();
    let c = call(32, "to_ident", vec![ident(33, "x")], "to_ident(x)");
    assert!(c.resolve(&env, &mut scope, None).is_ok());
    let md = scope.metadata_rc().get_call_metadata(32).unwrap();
    assert_eq!(md.func.id, 2);
}

#[test]
fn call_ties_go_to_the_lower_id() {
    let env = environment();
    let mut scope = Scope::new();
    let c = call(34, "twin", vec![ident(35, "x")], "twin(x)");
    assert!(c.resolve(&env, &mut scope, None).is_ok());
    assert_eq!(scope.metadata_rc().get_call_metadata(34).unwrap().func.id, 6);
}

#[test]
fn call_ties_prefer_a_fixed_signature() {
    let env = environment();
    let mut scope = Scope::new();
    let c = call(36, "mix", vec![ident(37, "x")], "mix(x)");
    assert!(c.resolve(&env, &mut scope, None).is_ok());
    assert_eq!(scope.metadata_rc().get_call_metadata(36).unwrap().func.id, 9);
}

#[test]
fn variadic_arguments_cost_double() {
    let env = environment();
    let mut scope = Scope::new();
    let c = call(40, "concat", vec![lit_int(41, "1"), ident(42, "a"), lit_int(43, "2")], "concat(1, a, 2)");
    assert!(c.resolve(&env, &mut scope, None).is_ok());
    let md = scope.metadata_rc().get_call_metadata(40).unwrap();
    assert_eq!(md.func.id, 4);
    assert_eq!(md.coercion_cost, 8);
}

#[test]
fn call_result_is_coerced_to_the_expected_type() {
    let env = environment();
    let mut scope = Scope::new();
    let c = call(44, "upper", vec![ident(45, "a")], "upper(a)");
    assert!(c.resolve(&env, &mut scope, Some(Type::Path)).is_ok());
    let md = scope.metadata_rc().get_call_metadata(44).unwrap();
    assert_eq!(md.coercion_cost, 1);
    assert_eq!(md.target_type, Type::Path);
}

#[test]
fn call_result_without_coercion_fails() {
    let env = environment();
    let mut scope = Scope::new();
    let c = call(46, "to_str", vec![ident(47, "a")], "to_str(a)");
    let r = c.resolve(&env, &mut scope, Some(Type::Ident));
    assert!(matches!(r, Err(Error::SignatureError(_, _, _))));
}

#[test]
fn resolve_call_for_func_checks_arity() {
    let env = environment();
    let mut scope = Scope::new();
    let f = func(9, "upper", vec![Type::Ident], false, Type::Ident, "upper(ident) -> ident");
    let c = call(48, "upper", vec![], "upper()");
    let r = resolve_call_for_func(&f, &c, &env, &mut scope, None);
    assert!(matches!(r, Err(Error::SignatureError(_, _, _))));
    let c2 = call(49, "upper", vec![lit_int(50, "5")], "upper(5)");
    match resolve_call_for_func(&f, &c2, &env, &mut scope, None) {
        Ok((cost, args)) => {
            assert_eq!(cost, 2);
            assert_eq!(args.len(), 1);
        }
        Err(e) => panic!("unexpected error: {:?}", e),
    }
}

#[test]
fn resolve_arg_adds_the_weighted_cost() {
    let env = environment();
    let mut scope = Scope::new();
    let mut cost: u32 = 5;
    let mut args = Vec::new();
    let r = resolve_arg(lit_int(51, "3"), 2, &mut cost, &mut args, &env, &mut scope, Some(Type::Ident));
    assert!(r.is_ok());
    assert_eq!(cost, 9);
    assert_eq!(args.len(), 1);
}

#[test]
fn alias_spec_records_every_alias() {
    let env = environment();
    let interpreter = Interpreter::new(Rc::new(env));
    let spec = AliasSpec {
        id: 60,
        items: vec![
            Rc::new(AliasSpecItem { id: 61, alias: "a".to_string(), expr: ident(62, "foo") }),
            Rc::new(AliasSpecItem {
                id: 63,
                alias: "b".to_string(),
                expr: Rc::new(Expr::FuncCallExpr(Rc::new(call(64, "upper", vec![ident(65, "a")], "upper(a)")))),
            }),
        ],
    };
    let scope = interpreter.resolve_spec(&spec).unwrap();
    assert!(scope.get_name("a").is_some());
    assert!(scope.get_name("b").is_some());
    assert!(scope.get_name("c").is_none());
    assert!(scope.metadata_rc().get_call_metadata(64).is_some());
}

#[test]
fn alias_spec_refuses_duplicate_aliases() {
    let env = environment();
    let interpreter = Interpreter::new(Rc::new(env));
    let spec = AliasSpec {
        id: 70,
        items: vec![
            Rc::new(AliasSpecItem { id: 71, alias: "alias".to_string(), expr: ident(72, "foo") }),
            Rc::new(AliasSpecItem { id: 73, alias: "alias".to_string(), expr: ident(74, "bar") }),
        ],
    };
    match interpreter.resolve_spec(&spec) {
        Err(Error::RedefinedNameError(name, _)) => assert_eq!(name, "alias"),
        Err(e) => panic!("unexpected error: {:?}", e),
        Ok(_) => panic!("expected an error"),
    }
}

#[test]
fn alias_reuse_takes_the_alias_type() {
    let env = environment();
    let mut scope = Scope::new();
    let spec = AliasSpec {
        id: 80,
        items: vec![
            Rc::new(AliasSpecItem { id: 81, alias: "s".to_string(), expr: lit_str(82, "foo bar") }),
            Rc::new(AliasSpecItem { id: 83, alias: "alias".to_string(), expr: ident(84, "s") }),
        ],
    };
    assert!(Resolve::resolve(&spec, &env, &mut scope, None).is_ok());
    let md = scope.metadata_rc().get_value_metadata(84).copied().unwrap();
    assert_eq!(md.target_type, Type::LitStr);
    assert_eq!(md.coercion_cost, 0);
}

#[test]
fn failed_item_leaves_later_items_unresolved() {
    let env = environment();
    let mut scope = Scope::new();
    let spec = AliasSpec {
        id: 90,
        items: vec![
            Rc::new(AliasSpecItem {
                id: 91,
                alias: "a".to_string(),
                expr: Rc::new(Expr::FuncCallExpr(Rc::new(call(92, "missing", vec![], "missing()")))),
            }),
            Rc::new(AliasSpecItem { id: 93, alias: "b".to_string(), expr: ident(94, "x") }),
        ],
    };
    let r = spec.resolve(&env, &mut scope, None);
    assert!(matches!(r, Err(Error::UndefinedFunctionError(_, _))));
    assert!(scope.get_name("a").is_none());
    assert!(scope.get_name("b").is_none());
    assert!(scope.metadata_rc().get_value_metadata(94).is_none());
}
