//! The resolve phase: type checking of alias expressions and binding of calls
//! to function signatures.
//!
//! Every value is checked against the type it is expected at, and every call
//! is bound to the signature of its function that accepts its arguments at the
//! lowest coercion cost. What is found is recorded in the scope's metadata.

use vstd::prelude::*;
use std::rc::Rc;
use crate::ast::{AliasSpec, AliasSpecItem, lemma_args_size_bound, call_size, expr_id, expr_size, expr_span, lemma_arg_smaller, rc_clone, Call, Expr};
use crate::env::{coercion_cost_spec, func_wf, non_variadic_types, variants_of, Environment, Func};
use crate::error::{Error, ErrorView};
use crate::scope::{CallMetaView, Scope, ScopeView, ValueMetadata};
use crate::types::Type;
use crate::value::{kind_type, NodeId, Value, ValueKind};

verus! {

/// Whether every alias of the scope stands for a node that metadata was
/// recorded for.
pub open spec fn aliases_recorded(sc: ScopeView) -> bool {
    forall|n: Seq<char>| #[trigger] sc.aliases.contains_key(n) ==> {
        let id = expr_id(sc.aliases[n]);
        sc.values.contains_key(id) || sc.calls.contains_key(id)
    }
}

/// Whether the node `id` has recorded metadata.
pub open spec fn recorded(sc: ScopeView, id: NodeId) -> bool {
    sc.values.contains_key(id) || sc.calls.contains_key(id)
}

/// The type recorded for the node that an alias stands for.
pub open spec fn alias_target_type(sc: ScopeView, e: Expr) -> Type {
    let id = expr_id(e);
    if sc.values.contains_key(id) {
        sc.values[id].target_type
    } else {
        sc.calls[id].target_type
    }
}

/// The type a value has before coercion: an identifier naming an alias has the
/// type the alias's expression was resolved to; any other value has the type
/// of its category.
pub open spec fn value_source_type(sc: ScopeView, v: Value) -> Type {
    match v.kind {
        ValueKind::Ident(name) => if sc.aliases.contains_key(name@) {
            alias_target_type(sc, sc.aliases[name@])
        } else {
            kind_type(v.kind)
        },
        _ => kind_type(v.kind),
    }
}

/// The result of resolving value `v` at the expected type (by default its own).
pub open spec fn resolve_value_spec(
    env: Environment,
    sc: ScopeView,
    v: Value,
    expected: Option<Type>,
) -> Result<ScopeView, ErrorView> {
    let from = value_source_type(sc, v);
    let target = match expected {
        Some(t) => t,
        None => from,
    };
    match coercion_cost_spec(env.coercions@, from, target) {
        Some(cost) => Ok(
            ScopeView {
                aliases: sc.aliases,
                values: sc.values.insert(v.id, ValueMetadata { target_type: target, coercion_cost: cost }),
                calls: sc.calls,
            },
        ),
        None => Err(ErrorView::Coercion(kind_type(v.kind), target)),
    }
}

/// The result of resolving expression `e` at the expected type.
pub open spec fn resolve_expr_spec(
    env: Environment,
    sc: ScopeView,
    e: Expr,
    expected: Option<Type>,
) -> Result<ScopeView, ErrorView>
    decreases expr_size(e), 0nat,
{
    match e {
        Expr::ValueExpr(v) => resolve_value_spec(env, sc, *v, expected),
        Expr::FuncCallExpr(c) => resolve_call_spec(env, sc, *c, expected),
    }
}

/// Message of the error for a node whose metadata is missing after resolution.
pub open spec fn missing_metadata_message(e: Expr) -> Seq<char> {
    match e {
        Expr::ValueExpr(_) => "Value metadata is expected be set after resolve call"@,
        Expr::FuncCallExpr(_) => "Call metadata is expected be set after resolve call"@,
    }
}

/// Message of the error for a coercion cost that does not fit in `u32`.
pub open spec fn cost_overflow_message() -> Seq<char> {
    "Coercion cost does not fit in u32"@
}

/// The coercion cost recorded for expression `e`.
pub open spec fn recorded_cost(sc: ScopeView, e: Expr) -> Option<u32> {
    match e {
        Expr::ValueExpr(v) => if sc.values.contains_key(v.id) {
            Some(sc.values[v.id].coercion_cost)
        } else {
            None
        },
        Expr::FuncCallExpr(c) => if sc.calls.contains_key(c.id) {
            Some(sc.calls[c.id].coercion_cost)
        } else {
            None
        },
    }
}

/// One argument's step of call resolution, given the result of resolving it:
/// its recorded cost, times `multiplier`, is added to `cost`.
pub open spec fn arg_step(
    resolved: Result<ScopeView, ErrorView>,
    arg: Expr,
    multiplier: u32,
    cost: u32,
) -> Result<(u32, ScopeView), ErrorView> {
    match resolved {
        Err(e) => Err(e),
        Ok(sc2) => match recorded_cost(sc2, arg) {
            None => Err(ErrorView::Internal(missing_metadata_message(arg))),
            Some(c) => if cost + c * multiplier <= u32::MAX {
                Ok(((cost + c * multiplier) as u32, sc2))
            } else {
                Err(ErrorView::Internal(cost_overflow_message()))
            },
        },
    }
}

/// The expected type and cost multiplier of argument `i` for signature `f`:
/// arguments that are not repeated count once, repeated ones twice.
pub open spec fn arg_slot(f: Func, i: int) -> (Type, u32) {
    let nv = non_variadic_types(f);
    if i < nv.len() {
        (nv[i], 1u32)
    } else {
        (f.arg_types@.last(), 2u32)
    }
}

/// Resolution of the arguments of `call` from the `i`-th on, for signature `f`,
/// with `cost` accumulated and `done` resolved so far.
pub open spec fn resolve_args_spec(
    env: Environment,
    sc: ScopeView,
    f: Func,
    call: Call,
    i: int,
    cost: u32,
    done: Seq<Rc<Expr>>,
) -> Result<(u32, Seq<Rc<Expr>>, ScopeView), ErrorView>
    decreases call_size(call), call.args@.len() - i,
{
    if i < 0 || i >= call.args@.len() {
        Ok((cost, done, sc))
    } else {
        proof {
            lemma_arg_smaller(call, i);
        }
        let arg = call.args@[i];
        let (t, m) = arg_slot(f, i);
        match arg_step(resolve_expr_spec(env, sc, *arg, Some(t)), *arg, m, cost) {
            Err(e) => Err(e),
            Ok((c2, sc2)) => resolve_args_spec(env, sc2, f, call, i + 1, c2, done.push(arg)),
        }
    }
}

/// The signature error of a call for the given signatures.
pub open spec fn signature_error(sigs: Seq<Seq<char>>, call: Call) -> ErrorView {
    ErrorView::Signature(sigs, call.text@, call.span)
}

/// The signatures of the functions, as users read them.
pub open spec fn signatures_of(funcs: Seq<Rc<Func>>) -> Seq<Seq<char>> {
    funcs.map_values(|f: Rc<Func>| f.signature@)
}

/// The result of resolving `call` against signature `f`: the total coercion
/// cost, the resolved arguments and the scope after resolving them.
///
/// The result's coercion to the expected type is paid for first. A signature
/// that takes a single `raw` argument receives the raw argument list when the
/// call has one. Otherwise the number of arguments must match the signature
/// (at least the number of argument types for a variadic one).
pub open spec fn resolve_for_func_spec(
    env: Environment,
    sc: ScopeView,
    f: Func,
    call: Call,
    expected: Option<Type>,
) -> Result<(u32, Seq<Rc<Expr>>, ScopeView), ErrorView>
    decreases call_size(call), call.args@.len() + 1,
{
    let base = match expected {
        None => Some(0u32),
        Some(t) => coercion_cost_spec(env.coercions@, f.out_type, t),
    };
    match base {
        None => Err(ErrorView::Coercion(f.out_type, expected->Some_0)),
        Some(cost0) => if f.arg_types@.len() == 1 && f.arg_types@[0] == Type::Raw
            && call.tokens is Some {
            let raw = call.tokens->Some_0;
            match resolve_expr_spec(env, sc, *raw, Some(Type::Raw)) {
                Err(e) => Err(e),
                Ok(sc2) => Ok((cost0, seq![raw], sc2)),
            }
        } else if (!f.variadic && f.arg_types@.len() == call.args@.len()) || (f.variadic
            && f.arg_types@.len() <= call.args@.len()) {
            resolve_args_spec(env, sc, f, call, 0, cost0, Seq::empty())
        } else {
            Err(signature_error(seq![f.signature@], call))
        },
    }
}

/// A successful resolution of a call against one signature.
pub struct Candidate {
    pub cost: u32,
    pub args: Seq<Rc<Expr>>,
    pub scope: ScopeView,
    pub func: Rc<Func>,
}

/// Whether candidate `a` is preferred to `b`: lower cost first, then a fixed
/// signature over a variadic one, then fewer argument types, then the lower id.
pub open spec fn preferred(a: Candidate, b: Candidate) -> bool {
    ||| a.cost < b.cost
    ||| a.cost == b.cost && !a.func.variadic && b.func.variadic
    ||| a.cost == b.cost && a.func.variadic == b.func.variadic && a.func.arg_types@.len()
        < b.func.arg_types@.len()
    ||| a.cost == b.cost && a.func.variadic == b.func.variadic && a.func.arg_types@.len()
        == b.func.arg_types@.len() && a.func.id < b.func.id
}

/// Tries the signatures `cands` from the `k`-th on, keeping the preferred
/// successful one; an internal error ends the search.
pub open spec fn select_spec(
    env: Environment,
    sc: ScopeView,
    call: Call,
    expected: Option<Type>,
    cands: Seq<Rc<Func>>,
    k: int,
    best: Option<Candidate>,
) -> Result<Option<Candidate>, ErrorView>
    decreases call_size(call), cands.len() - k + call.args@.len() + 2,
{
    if k < 0 || k >= cands.len() {
        Ok(best)
    } else {
        match resolve_for_func_spec(env, sc, *cands[k], call, expected) {
            Err(ErrorView::Internal(m)) => Err(ErrorView::Internal(m)),
            Err(_) => select_spec(env, sc, call, expected, cands, k + 1, best),
            Ok((cost, args, sc2)) => {
                let c = Candidate { cost, args, scope: sc2, func: cands[k] };
                let next = match best {
                    None => Some(c),
                    Some(b) => if preferred(c, b) {
                        Some(c)
                    } else {
                        Some(b)
                    },
                };
                select_spec(env, sc, call, expected, cands, k + 1, next)
            },
        }
    }
}

proof fn lemma_variants_wf(funcs: Seq<Rc<Func>>, name: Seq<char>)
    requires
        forall|i: int| 0 <= i < funcs.len() ==> func_wf(*#[trigger] funcs[i]),
    ensures
        forall|j: int| 0 <= j < variants_of(funcs, name).len() ==> func_wf(*#[trigger] variants_of(funcs, name)[j]),
    decreases funcs.len(),
{
    if funcs.len() > 0 {
        let p = funcs.drop_last();
        assert forall|i: int| 0 <= i < p.len() implies func_wf(*#[trigger] p[i]) by {
            assert(p[i] == funcs[i]);
        }
        lemma_variants_wf(p, name);
        assert(func_wf(*funcs[funcs.len() - 1]));
        let v = variants_of(funcs, name);
        let rest = variants_of(p, name);
        assert forall|j: int| 0 <= j < v.len() implies func_wf(*#[trigger] v[j]) by {
            if j < rest.len() {
                assert(v[j] == rest[j]);
            } else {
                assert(v[j] == funcs.last());
            }
        }
    }
}

/// A function has no more signatures than the environment has in all.
pub proof fn lemma_variants_len(funcs: Seq<Rc<Func>>, name: Seq<char>)
    ensures
        variants_of(funcs, name).len() <= funcs.len(),
    decreases funcs.len(),
{
    if funcs.len() > 0 {
        lemma_variants_len(funcs.drop_last(), name);
    }
}

/// The result of resolving `call`: its function must be defined, and the
/// preferred signature that accepts the arguments is bound to it.
pub open spec fn resolve_call_spec(
    env: Environment,
    sc: ScopeView,
    call: Call,
    expected: Option<Type>,
) -> Result<ScopeView, ErrorView>
    decreases call_size(call), env.funcs@.len() + call.args@.len() + 3,
{
    let cands = variants_of(env.funcs@, call.name@);
    proof {
        lemma_variants_len(env.funcs@, call.name@);
    }
    if cands.len() == 0 {
        Err(ErrorView::UndefinedFunction(call.name@, call.span))
    } else {
        match select_spec(env, sc, call, expected, cands, 0, None) {
            Err(e) => Err(e),
            Ok(None) => Err(signature_error(signatures_of(cands), call)),
            Ok(Some(best)) => Ok(
                ScopeView {
                    aliases: best.scope.aliases,
                    values: best.scope.values,
                    calls: best.scope.calls.insert(
                        call.id,
                        CallMetaView {
                            args: best.args,
                            func: best.func,
                            target_type: match expected {
                                Some(t) => t,
                                None => best.func.out_type,
                            },
                            coercion_cost: best.cost,
                        },
                    ),
                },
            ),
        }
    }
}


/// Whether `r` is a success that leaves the scope at `sc`.
pub open spec fn outcome_ok(r: Result<ScopeView, ErrorView>, sc: ScopeView) -> bool {
    r is Ok && r->Ok_0 == sc
}

/// Whether `r` is the failure `e`.
pub open spec fn outcome_err<T>(r: Result<T, ErrorView>, e: ErrorView) -> bool {
    r is Err && r->Err_0 == e
}

/// A resolved expression has its metadata recorded.
pub proof fn lemma_resolved_is_recorded(
    env: Environment,
    sc: ScopeView,
    e: Rc<Expr>,
    expected: Option<Type>,
)
    requires
        resolve_expr_spec(env, sc, *e, expected) is Ok,
    ensures
        recorded(resolve_expr_spec(env, sc, *e, expected)->Ok_0, expr_id(*e)),
{
}

impl Value {
    /// Resolves the value at the expected type (by default its own): an
    /// identifier naming an alias takes the type the alias was resolved to.
    /// Records the target type and the coercion cost in the scope's metadata.
    pub fn resolve(&self, environment: &Environment, scope: &mut Scope, expected_type: Option<Type>) -> (r: Result<(), Error>)
        requires
            aliases_recorded(old(scope)@),
        ensures
            match r {
                Ok(()) => outcome_ok(resolve_value_spec(*environment, old(scope)@, *self, expected_type), final(scope)@),
                Err(e) => outcome_err(resolve_value_spec(*environment, old(scope)@, *self, expected_type), e@)
                    && final(scope)@ == old(scope)@,
            },
            aliases_recorded(final(scope)@),
    {
        let ghost sc0 = scope@;
        let from_type = match &self.kind {
            ValueKind::Ident(name) => match scope.get_name(name.as_str()) {
                Some(e) => {
                    let id = e.id();
                    let md = scope.metadata_rc();
                    match md.get_value_metadata(id) {
                        Some(m) => m.target_type,
                        None => match md.get_call_metadata(id) {
                            Some(m) => m.target_type,
                            None => {
                                proof {
                                    assert(sc0.aliases.contains_key(name@));
                                }
                                self.type_()
                            },
                        },
                    }
                },
                None => self.type_(),
            },
            _ => self.type_(),
        };
        let target = match expected_type {
            Some(t) => t,
            None => from_type,
        };
        match environment.coercion_cost(from_type, target) {
            Some(cost) => {
                let md = scope.metadata_mut();
                md.set_value_metadata(self.id, target, cost);
                proof {
                    let expect = resolve_value_spec(*environment, sc0, *self, expected_type);
                    assert(scope@ =~= expect->Ok_0);
                    assert forall|n: Seq<char>| #[trigger] scope@.aliases.contains_key(n) implies recorded(scope@, expr_id(scope@.aliases[n])) by {
                        assert(sc0.aliases.contains_key(n));
                    }
                }
                Ok(())
            },
            None => {
                proof {
                    assert(ErrorView::Coercion(kind_type(self.kind), target) =~= resolve_value_spec(*environment, sc0, *self, expected_type)->Err_0);
                }
                Err(Error::CoercionError(self.type_(), target))
            },
        }
    }
}


impl Expr {
    /// Resolves the expression at the expected type, delegating to the value
    /// or the call it consists of.
    pub fn resolve(&self, environment: &Environment, scope: &mut Scope, expected_type: Option<Type>) -> (r: Result<(), Error>)
        requires
            environment.wf(),
            aliases_recorded(old(scope)@),
        ensures
            match r {
                Ok(()) => outcome_ok(resolve_expr_spec(*environment, old(scope)@, *self, expected_type), final(scope)@),
                Err(e) => outcome_err(resolve_expr_spec(*environment, old(scope)@, *self, expected_type), e@)
                    && final(scope)@ == old(scope)@,
            },
            aliases_recorded(final(scope)@),
        decreases expr_size(*self), 0nat,
    {
        match self {
            Expr::ValueExpr(value) => value.resolve(environment, scope, expected_type),
            Expr::FuncCallExpr(call) => call.resolve(environment, scope, expected_type),
        }
    }
}

/// Resolves one argument of a call at the expected type and adds its coercion
/// cost, times `coercion_cost_multiplier`, to `resolved_coercion_cost`; the
/// argument is appended to `resolved_args`.
pub fn resolve_arg(
    arg: Rc<Expr>,
    coercion_cost_multiplier: u32,
    resolved_coercion_cost: &mut u32,
    resolved_args: &mut Vec<Rc<Expr>>,
    environment: &Environment,
    scope: &mut Scope,
    expected_type: Option<Type>,
) -> (r: Result<(), Error>)
    requires
        environment.wf(),
        aliases_recorded(old(scope)@),
    ensures
        ({
            let step = arg_step(
                resolve_expr_spec(*environment, old(scope)@, *arg, expected_type),
                *arg,
                coercion_cost_multiplier,
                *old(resolved_coercion_cost),
            );
            match r {
                Ok(()) => step is Ok && step->Ok_0.0 == *final(resolved_coercion_cost)
                    && step->Ok_0.1 == final(scope)@ && final(resolved_args)@ == old(resolved_args)@.push(arg)
                    && aliases_recorded(final(scope)@),
                Err(e) => outcome_err(step, e@) && *final(resolved_coercion_cost) == *old(resolved_coercion_cost)
                    && final(resolved_args)@ == old(resolved_args)@,
            }
        }),
    decreases expr_size(*arg), 1nat,
{
    let ghost sc0 = scope@;
    match arg.resolve(environment, scope, expected_type) {
        Ok(()) => {},
        Err(e) => {
            return Err(e);
        },
    }
    let md = scope.metadata_rc();
    let arg_coercion_cost = match &*arg {
        Expr::ValueExpr(value) => match md.get_value_metadata(value.id) {
            Some(m) => m.coercion_cost,
            None => {
                return Err(Error::InternalError("Value metadata is expected be set after resolve call".to_string()));
            },
        },
        Expr::FuncCallExpr(call) => match md.get_call_metadata(call.id) {
            Some(m) => m.coercion_cost,
            None => {
                return Err(Error::InternalError("Call metadata is expected be set after resolve call".to_string()));
            },
        },
    };
    let weighted = match arg_coercion_cost.checked_mul(coercion_cost_multiplier) {
        Some(w) => w,
        None => {
            proof {
                assert(arg_coercion_cost * coercion_cost_multiplier > u32::MAX);
                assert(*resolved_coercion_cost + arg_coercion_cost * coercion_cost_multiplier > u32::MAX);
            }
            return Err(Error::InternalError("Coercion cost does not fit in u32".to_string()));
        },
    };
    match resolved_coercion_cost.checked_add(weighted) {
        Some(total) => {
            *resolved_coercion_cost = total;
        },
        None => {
            return Err(Error::InternalError("Coercion cost does not fit in u32".to_string()));
        },
    }
    resolved_args.push(arg);
    Ok(())
}

/// Whether signature `f` is ruled out for `call` before any argument is
/// resolved: its result cannot be coerced to the expected type, or (unless it
/// takes the call's raw argument list) the number of arguments does not fit.
pub open spec fn early_signature_failure(env: Environment, f: Func, call: Call, expected: Option<Type>) -> bool {
    ||| (expected matches Some(t) && coercion_cost_spec(env.coercions@, f.out_type, t) is None)
    ||| (!(f.arg_types@.len() == 1 && f.arg_types@[0] == Type::Raw && call.tokens is Some) && !((!f.variadic
        && f.arg_types@.len() == call.args@.len()) || (f.variadic && f.arg_types@.len() <= call.args@.len())))
}

/// Attempts to resolve `call` against the signature `func`.
///
/// Checks that the call's arguments fit the signature and sums the coercion
/// costs. Upon success returns the cost and the resolved arguments.
pub fn resolve_call_for_func(
    func: &Func,
    call: &Call,
    environment: &Environment,
    scope: &mut Scope,
    expected_type: Option<Type>,
) -> (r: Result<(u32, Vec<Rc<Expr>>), Error>)
    requires
        environment.wf(),
        func_wf(*func),
        aliases_recorded(old(scope)@),
    ensures
        ({
            let expect = resolve_for_func_spec(*environment, old(scope)@, *func, *call, expected_type);
            match r {
                Ok((cost, args)) => expect is Ok && expect->Ok_0.0 == cost && expect->Ok_0.1 == args@
                    && expect->Ok_0.2 == final(scope)@ && aliases_recorded(final(scope)@),
                Err(e) => outcome_err(expect, e@),
            }
        }),
        early_signature_failure(*environment, *func, *call, expected_type) ==> r is Err && final(scope)@ == old(
            scope,
        )@,
    decreases call_size(*call), call.args@.len() + 1,
{
    let ghost sc0 = scope@;
    let mut coercion_cost: u32 = 0;
    if let Some(t) = expected_type {
        match environment.coercion_cost(func.out_type, t) {
            Some(cost) => {
                coercion_cost = cost;
            },
            None => {
                return Err(Error::CoercionError(func.out_type, t));
            },
        }
    }
    let ghost cost0 = coercion_cost;
    if func.arg_types.len() == 1 && func.arg_types[0] == Type::Raw {
        if let Some(raw) = &call.tokens {
            let raw_arg = rc_clone(raw);
            match raw_arg.resolve(environment, scope, Some(Type::Raw)) {
                Ok(()) => {},
                Err(e) => {
                    return Err(e);
                },
            }
            let mut args: Vec<Rc<Expr>> = Vec::new();
            args.push(raw_arg);
            proof {
                assert(args@ =~= seq![call.tokens->Some_0]);
            }
            return Ok((coercion_cost, args));
        }
    }
    let n = call.args.len();
    let nt = func.arg_types.len();
    if !((!func.variadic && nt == n) || (func.variadic && nt <= n)) {
        let mut sigs: Vec<String> = Vec::new();
        sigs.push(func.signature.clone());
        proof {
            assert(sigs@.map_values(|x: String| x@) =~= seq![func.signature@]);
        }
        return Err(Error::SignatureError(sigs, call.text.clone(), call.span));
    }
    let nv = func.num_non_variadic();
    let mut args: Vec<Rc<Expr>> = Vec::new();
    assert(resolve_for_func_spec(*environment, sc0, *func, *call, expected_type)
        == resolve_args_spec(*environment, sc0, *func, *call, 0, cost0, Seq::empty()));
    let mut i: usize = 0;
    while i < n
        invariant
            environment.wf(),
            func_wf(*func),
            n == call.args@.len(),
            nt == func.arg_types@.len(),
            nv == non_variadic_types(*func).len(),
            nt >= 1 || n == 0,
            i <= n,
            aliases_recorded(scope@),
            resolve_args_spec(*environment, sc0, *func, *call, 0, cost0, Seq::empty())
                == resolve_args_spec(*environment, scope@, *func, *call, i as int, coercion_cost, args@),
            resolve_for_func_spec(*environment, sc0, *func, *call, expected_type)
                == resolve_args_spec(*environment, sc0, *func, *call, 0, cost0, Seq::empty()),
            !early_signature_failure(*environment, *func, *call, expected_type),
            sc0 == old(scope)@,
        decreases n - i,
    {
        proof {
            lemma_arg_smaller(*call, i as int);
        }
        let (t, mult) = if i < nv {
            (func.arg_types[i], 1u32)
        } else {
            (func.arg_types[nt - 1], 2u32)
        };
        proof {
            assert((t, mult) == arg_slot(*func, i as int));
        }
        let ghost sc_before = scope@;
        let ghost cost_before = coercion_cost;
        let ghost done_before = args@;
        let arg = rc_clone(&call.args[i]);
        assert(arg == call.args@[i as int]);
        match resolve_arg(arg, mult, &mut coercion_cost, &mut args, environment, scope, Some(t)) {
            Ok(()) => {},
            Err(e) => {
                proof {
                    assert(outcome_err(resolve_args_spec(*environment, sc_before, *func, *call, i as int, cost_before, done_before), e@));
                    assert(outcome_err(resolve_args_spec(*environment, sc0, *func, *call, 0, cost0, Seq::empty()), e@));
                    assert(outcome_err(resolve_for_func_spec(*environment, sc0, *func, *call, expected_type), e@));
                }
                return Err(e);
            },
        }
        i = i + 1;
    }
    Ok((coercion_cost, args))
}

/// The view of the best candidate found so far.
pub open spec fn best_view(best: Option<(u32, Scope, Rc<Func>, Vec<Rc<Expr>>)>) -> Option<Candidate> {
    match best {
        None => None,
        Some(b) => Some(Candidate { cost: b.0, args: b.3@, scope: b.1@, func: b.2 }),
    }
}

/// Whether a candidate of cost `cost` for signature `f` is preferred to one of
/// cost `b_cost` for signature `b_func`.
fn is_preferred(cost: u32, f: &Func, b_cost: u32, b_func: &Func) -> (r: bool)
    ensures
        forall|a: Candidate, b: Candidate| a.cost == cost && *a.func == *f && b.cost == b_cost
            && *b.func == *b_func ==> r == preferred(a, b),
{
    if cost < b_cost {
        return true;
    }
    if cost > b_cost {
        return false;
    }
    if f.variadic != b_func.variadic {
        return !f.variadic;
    }
    if f.num_args() != b_func.num_args() {
        return f.num_args() < b_func.num_args();
    }
    f.id < b_func.id
}

impl Call {
    /// Resolves a call: binds it to the preferred signature of its function
    /// that accepts its arguments, and records the binding in the scope.
    ///
    /// Each signature is tried on a copy of the scope; the copy of the chosen
    /// one replaces the scope. An internal error ends the search at once;
    /// other failures of a signature only rule it out.
    pub fn resolve(&self, environment: &Environment, scope: &mut Scope, expected_type: Option<Type>) -> (r: Result<(), Error>)
        requires
            environment.wf(),
            aliases_recorded(old(scope)@),
        ensures
            match r {
                Ok(()) => outcome_ok(resolve_call_spec(*environment, old(scope)@, *self, expected_type), final(scope)@),
                Err(e) => outcome_err(resolve_call_spec(*environment, old(scope)@, *self, expected_type), e@)
                    && final(scope)@ == old(scope)@,
            },
            aliases_recorded(final(scope)@),
        decreases call_size(*self), environment.funcs@.len() + self.args@.len() + 3,
    {
        let ghost sc0 = scope@;
        proof {
            lemma_variants_len(environment.funcs@, self.name@);
            lemma_variants_wf(environment.funcs@, self.name@);
        }
        let func_candidates = match environment.get_func_variants(&self.name) {
            Some(funcs) => funcs,
            None => {
                return Err(Error::UndefinedFunctionError(self.name.clone(), self.span));
            },
        };
        let ghost cands = func_candidates@;
        let mut best: Option<(u32, Scope, Rc<Func>, Vec<Rc<Expr>>)> = None;
        let mut k: usize = 0;
        while k < func_candidates.len()
            invariant
                environment.wf(),
                aliases_recorded(scope@),
                scope@ == sc0,
                cands == func_candidates@,
                cands == variants_of(environment.funcs@, self.name@),
                cands.len() <= environment.funcs@.len(),
                k <= cands.len(),
                forall|j: int| 0 <= j < cands.len() ==> func_wf(*#[trigger] cands[j]),
                best matches Some(b) ==> aliases_recorded(b.1@),
                select_spec(*environment, sc0, *self, expected_type, cands, 0, None)
                    == select_spec(*environment, sc0, *self, expected_type, cands, k as int, best_view(best)),
            decreases cands.len() - k,
        {
            let mut candidate_scope = scope.deep_clone();
            assert(candidate_scope@ =~= sc0);
            match resolve_call_for_func(&func_candidates[k], self, environment, &mut candidate_scope, expected_type) {
                Ok((cost, args)) => {
                    let better = match &best {
                        None => true,
                        Some(b) => is_preferred(cost, &func_candidates[k], b.0, &b.2),
                    };
                    if better {
                        best = Some((cost, candidate_scope, rc_clone(&func_candidates[k]), args));
                    }
                },
                Err(Error::InternalError(m)) => {
                    return Err(Error::InternalError(m));
                },
                Err(_) => {},
            }
            k = k + 1;
        }
        match best {
            Some((cost, mut sc, func, args)) => {
                let target = match expected_type {
                    Some(t) => t,
                    None => func.out_type,
                };
                let md = sc.metadata_mut();
                md.set_call_metadata(self.id, args, func, target, cost);
                *scope = sc;
                proof {
                    let expect = resolve_call_spec(*environment, sc0, *self, expected_type);
                    assert(scope@ =~= expect->Ok_0);
                }
                Ok(())
            },
            None => {
                let mut sigs: Vec<String> = Vec::new();
                let mut j: usize = 0;
                while j < func_candidates.len()
                    invariant
                        j <= func_candidates@.len(),
                        sigs@.map_values(|x: String| x@) =~= signatures_of(func_candidates@.take(j as int)),
                    decreases func_candidates.len() - j,
                {
                    let ghost before = sigs@;
                    sigs.push(func_candidates[j].signature.clone());
                    proof {
                        assert(func_candidates@.take(j + 1) =~= func_candidates@.take(j as int).push(func_candidates@[j as int]));
                        assert(sigs@ =~= before.push(sigs@.last()));
                        assert(sigs@.map_values(|x: String| x@) =~= before.map_values(|x: String| x@).push(sigs@.last()@));
                        assert(signatures_of(func_candidates@.take(j + 1)) =~= signatures_of(func_candidates@.take(j as int)).push(func_candidates@[j as int].signature@));
                    }
                    j = j + 1;
                }
                proof {
                    assert(func_candidates@.take(func_candidates@.len() as int) =~= func_candidates@);
                }
                Err(Error::SignatureError(sigs, self.text.clone(), self.span))
            },
        }
    }
}


/// The scope after resolving alias definition `item`, and the error that
/// stopped it, if any: the expression is resolved, then the alias is added.
pub open spec fn resolve_item_spec(
    env: Environment,
    sc: ScopeView,
    item: AliasSpecItem,
    expected: Option<Type>,
) -> (ScopeView, Option<ErrorView>) {
    match resolve_expr_spec(env, sc, *item.expr, expected) {
        Err(e) => (sc, Some(e)),
        Ok(sc2) => if sc2.aliases.contains_key(item.alias@) {
            (sc2, Some(ErrorView::RedefinedName(item.alias@, expr_span(*item.expr))))
        } else {
            (
                ScopeView {
                    aliases: sc2.aliases.insert(item.alias@, *item.expr),
                    values: sc2.values,
                    calls: sc2.calls,
                },
                None,
            )
        },
    }
}

/// The scope after resolving the definitions `items` in order, stopping at the
/// first error, and that error.
pub open spec fn resolve_items_spec(
    env: Environment,
    sc: ScopeView,
    items: Seq<Rc<AliasSpecItem>>,
    expected: Option<Type>,
) -> (ScopeView, Option<ErrorView>)
    decreases items.len(),
{
    if items.len() == 0 {
        (sc, None)
    } else {
        let (sc1, err) = resolve_items_spec(env, sc, items.drop_last(), expected);
        if err is Some {
            (sc1, err)
        } else {
            resolve_item_spec(env, sc1, *items.last(), expected)
        }
    }
}

impl AliasSpecItem {
    /// Resolves the definition: resolves its expression, then adds the alias to
    /// the scope, refusing a redefinition.
    pub fn resolve(&self, environment: &Environment, scope: &mut Scope, expected_type: Option<Type>) -> (r: Result<(), Error>)
        requires
            environment.wf(),
            aliases_recorded(old(scope)@),
        ensures
            ({
                let (sc, err) = resolve_item_spec(*environment, old(scope)@, *self, expected_type);
                &&& final(scope)@ == sc
                &&& match r {
                    Ok(()) => err is None,
                    Err(e) => err == Some(e@),
                }
            }),
            aliases_recorded(final(scope)@),
    {
        let ghost sc0 = scope@;
        let name = self.alias.clone();
        match self.expr.resolve(environment, scope, expected_type) {
            Ok(()) => {},
            Err(e) => {
                return Err(e);
            },
        }
        proof {
            lemma_resolved_is_recorded(*environment, sc0, self.expr, expected_type);
        }
        let ghost sc1 = scope@;
        let r = scope.try_add_name(name, rc_clone(&self.expr));
        proof {
            if r is Ok {
                assert(scope@ =~= resolve_item_spec(*environment, sc0, *self, expected_type).0);
                assert forall|n: Seq<char>| #[trigger] scope@.aliases.contains_key(n) implies recorded(scope@, expr_id(scope@.aliases[n])) by {
                    if n != self.alias@ {
                        assert(sc1.aliases.contains_key(n));
                    }
                }
            } else {
                assert(scope@ =~= sc1);
            }
        }
        r
    }
}

impl AliasSpec {
    /// Resolves the definitions in order, stopping at the first error.
    pub fn resolve(&self, environment: &Environment, scope: &mut Scope, expected_type: Option<Type>) -> (r: Result<(), Error>)
        requires
            environment.wf(),
            aliases_recorded(old(scope)@),
        ensures
            ({
                let (sc, err) = resolve_items_spec(*environment, old(scope)@, self.items@, expected_type);
                &&& final(scope)@ == sc
                &&& match r {
                    Ok(()) => err is None,
                    Err(e) => err == Some(e@),
                }
            }),
            aliases_recorded(final(scope)@),
    {
        let ghost sc0 = scope@;
        let mut i: usize = 0;
        while i < self.items.len()
            invariant
                environment.wf(),
                i <= self.items@.len(),
                sc0 == old(scope)@,
                aliases_recorded(scope@),
                resolve_items_spec(*environment, sc0, self.items@.take(i as int), expected_type)
                    == (scope@, Option::<ErrorView>::None),
            decreases self.items.len() - i,
        {
            proof {
                assert(self.items@.take(i + 1).drop_last() =~= self.items@.take(i as int));
                assert(self.items@.take(i + 1).last() == self.items@[i as int]);
            }
            match self.items[i].resolve(environment, scope, expected_type) {
                Ok(()) => {},
                Err(e) => {
                    proof {
                        assert(self.items@.take(i + 1) =~= self.items@.take(i + 1));
                        lemma_items_stop(*environment, sc0, self.items@, i + 1, expected_type);
                    }
                    return Err(e);
                },
            }
            i = i + 1;
        }
        proof {
            assert(self.items@.take(self.items@.len() as int) =~= self.items@);
        }
        Ok(())
    }
}

/// Once resolving the first `k` definitions stopped on an error, resolving
/// more of them stops on the same error in the same scope.
proof fn lemma_items_stop(
    env: Environment,
    sc: ScopeView,
    items: Seq<Rc<AliasSpecItem>>,
    k: int,
    expected: Option<Type>,
)
    requires
        0 <= k <= items.len(),
        resolve_items_spec(env, sc, items.take(k), expected).1 is Some,
    ensures
        resolve_items_spec(env, sc, items, expected) == resolve_items_spec(env, sc, items.take(k), expected),
    decreases items.len() - k,
{
    if k < items.len() {
        assert(items.take(k + 1).drop_last() =~= items.take(k));
        lemma_items_stop(env, sc, items, k + 1, expected);
    } else {
        assert(items.take(k) =~= items);
    }
}


/// Resolution of `call` against the `k`-th of the signatures `cands`.
pub open spec fn resolve_for_candidate(
    env: Environment,
    sc: ScopeView,
    cands: Seq<Rc<Func>>,
    k: int,
    call: Call,
    expected: Option<Type>,
) -> Result<(u32, Seq<Rc<Expr>>, ScopeView), ErrorView> {
    resolve_for_func_spec(env, sc, *cands[k], call, expected)
}

proof fn lemma_not_preferred_transitive(a: Candidate, b: Candidate, c: Candidate)
    requires
        !preferred(a, b),
        !preferred(b, c),
    ensures
        !preferred(a, c),
{
}

proof fn lemma_preferred_then_not(a: Candidate, b: Candidate, c: Candidate)
    requires
        preferred(a, b),
        !preferred(a, c),
    ensures
        !preferred(b, c),
{
}

proof fn lemma_select_best(
    env: Environment,
    sc: ScopeView,
    call: Call,
    expected: Option<Type>,
    cands: Seq<Rc<Func>>,
    k: int,
    best: Option<Candidate>,
)
    requires
        0 <= k <= cands.len(),
        select_spec(env, sc, call, expected, cands, k, best) matches Ok(Some(_)),
    ensures
        ({
            let r = select_spec(env, sc, call, expected, cands, k, best)->Ok_0->Some_0;
            &&& best matches Some(b) ==> !preferred(b, r)
            &&& best is None ==> exists|j: int| k <= j < cands.len() && r.func == cands[j]
            &&& best matches Some(b) ==> r == b || exists|j: int| k <= j < cands.len() && r.func == cands[j]
            &&& forall|j: int| k <= j < cands.len() && (#[trigger] resolve_for_func_spec(env, sc, *cands[j], call, expected)) is Ok
                ==> {
                    let o = resolve_for_func_spec(env, sc, *cands[j], call, expected)->Ok_0;
                    !preferred(Candidate { cost: o.0, args: o.1, scope: o.2, func: cands[j] }, r)
                }
        }),
    decreases cands.len() - k,
{
    if k < cands.len() {
        let res = resolve_for_candidate(env, sc, cands, k, call, expected);
        match res {
            Err(ErrorView::Internal(m)) => {},
            Err(_) => {
                lemma_select_best(env, sc, call, expected, cands, k + 1, best);
            },
            Ok((cost, args, sc2)) => {
                let c = Candidate { cost, args, scope: sc2, func: cands[k] };
                let next = match best {
                    None => Some(c),
                    Some(b) => if preferred(c, b) {
                        Some(c)
                    } else {
                        Some(b)
                    },
                };
                lemma_select_best(env, sc, call, expected, cands, k + 1, next);
                let r = select_spec(env, sc, call, expected, cands, k, best)->Ok_0->Some_0;
                let nb = next->Some_0;
                if let Some(b) = best {
                    if preferred(c, b) {
                        lemma_preferred_then_not(c, b, r);
                    } else {
                        lemma_not_preferred_transitive(c, b, r);
                    }
                }
                assert forall|j: int| k <= j < cands.len() && (#[trigger] resolve_for_func_spec(env, sc, *cands[j], call, expected)) is Ok
                    implies {
                        let o = resolve_for_func_spec(env, sc, *cands[j], call, expected)->Ok_0;
                        !preferred(Candidate { cost: o.0, args: o.1, scope: o.2, func: cands[j] }, r)
                    } by {
                    if j == k {
                        assert(!preferred(nb, r));
                        if nb != c {
                            lemma_not_preferred_transitive(c, nb, r);
                        }
                    }
                }
            },
        }
    }
}

/// A call is bound to the preferred signature among those of its function
/// that accept its arguments: no accepting signature has a lower total
/// coercion cost, and the bound signature is one of the function's.
pub proof fn law_call_binds_cheapest(env: Environment, sc: ScopeView, call: Call, expected: Option<Type>, j: int)
    requires
        resolve_call_spec(env, sc, call, expected) is Ok,
        0 <= j < variants_of(env.funcs@, call.name@).len(),
        resolve_for_func_spec(env, sc, *variants_of(env.funcs@, call.name@)[j], call, expected) is Ok,
    ensures
        ({
            let bound = resolve_call_spec(env, sc, call, expected)->Ok_0.calls[call.id];
            let o = resolve_for_func_spec(env, sc, *variants_of(env.funcs@, call.name@)[j], call, expected)->Ok_0;
            &&& bound.coercion_cost <= o.0
            &&& exists|i: int| 0 <= i < variants_of(env.funcs@, call.name@).len()
                && bound.func == variants_of(env.funcs@, call.name@)[i]
        }),
{
    let cands = variants_of(env.funcs@, call.name@);
    lemma_select_best(env, sc, call, expected, cands, 0, None);
    let o = resolve_for_candidate(env, sc, cands, j, call, expected)->Ok_0;
    assert(resolve_for_func_spec(env, sc, *cands[j], call, expected) is Ok);
}

/// A call of a function without signatures fails as undefined, whatever the
/// scope and the expected type.
pub proof fn law_undefined_function(env: Environment, sc: ScopeView, call: Call, expected: Option<Type>)
    requires
        variants_of(env.funcs@, call.name@).len() == 0,
    ensures
        resolve_call_spec(env, sc, call, expected) == Err::<ScopeView, ErrorView>(
            ErrorView::UndefinedFunction(call.name@, call.span),
        ),
{
}


/// Re-using an alias bound to a call: an identifier that names it, resolved
/// with no expected type, takes the type the call was resolved to, at no cost.
pub proof fn law_alias_of_call_takes_call_type(env: Environment, sc: ScopeView, v: Value, c: Rc<Call>)
    requires
        v.kind matches ValueKind::Ident(name) && sc.aliases.contains_key(name@) && sc.aliases[name@]
            == Expr::FuncCallExpr(c),
        sc.calls.contains_key(c.id),
        !sc.values.contains_key(c.id),
    ensures
        resolve_value_spec(env, sc, v, None) matches Ok(sc2) && sc2.values[v.id] == (ValueMetadata {
            target_type: sc.calls[c.id].target_type,
            coercion_cost: 0,
        }),
{
}

/// Re-using an alias bound to a value: an identifier that names it, resolved
/// with no expected type, takes the type recorded for that value, at no cost.
pub proof fn law_alias_of_value_takes_value_type(env: Environment, sc: ScopeView, v: Value, w: Rc<Value>)
    requires
        v.kind matches ValueKind::Ident(name) && sc.aliases.contains_key(name@) && sc.aliases[name@]
            == Expr::ValueExpr(w),
        sc.values.contains_key(w.id),
    ensures
        resolve_value_spec(env, sc, v, None) matches Ok(sc2) && sc2.values[v.id] == (ValueMetadata {
            target_type: sc.values[w.id].target_type,
            coercion_cost: 0,
        }),
{
}

/// A value that is no identifier naming an alias, resolved with no expected
/// type, keeps the type of its category, at no cost.
pub proof fn law_plain_value_takes_its_category(env: Environment, sc: ScopeView, v: Value)
    requires
        !(v.kind matches ValueKind::Ident(name) && sc.aliases.contains_key(name@)),
    ensures
        resolve_value_spec(env, sc, v, None) matches Ok(sc2) && sc2.values[v.id] == (ValueMetadata {
            target_type: kind_type(v.kind),
            coercion_cost: 0,
        }),
{
}

/// A signature that takes a single `raw` argument receives the call's raw
/// argument list when the call has one, whatever arguments were read from
/// it: the list alone is resolved, as `raw`, and is the only resolved
/// argument; the cost is that of the result's coercion to the expected type.
pub proof fn law_raw_signature_takes_raw_list(
    env: Environment,
    sc: ScopeView,
    f: Func,
    call: Call,
    expected: Option<Type>,
)
    requires
        f.arg_types@ == seq![Type::Raw],
        call.tokens is Some,
        expected matches Some(t) ==> coercion_cost_spec(env.coercions@, f.out_type, t) is Some,
    ensures
        ({
            let raw = call.tokens->Some_0;
            let cost0 = match expected {
                None => 0u32,
                Some(t) => coercion_cost_spec(env.coercions@, f.out_type, t)->Some_0,
            };
            match resolve_expr_spec(env, sc, *raw, Some(Type::Raw)) {
                Ok(sc2) => resolve_for_func_spec(env, sc, f, call, expected) == Ok::<
                    (u32, Seq<Rc<Expr>>, ScopeView),
                    ErrorView,
                >((cost0, seq![raw], sc2)),
                Err(e) => resolve_for_func_spec(env, sc, f, call, expected) == Err::<
                    (u32, Seq<Rc<Expr>>, ScopeView),
                    ErrorView,
                >(e),
            }
        }),
{
    assert(f.arg_types@.len() == 1 && f.arg_types@[0] == Type::Raw);
}

/// Whether an expression is a call.
pub open spec fn is_call(e: Rc<Expr>) -> bool {
    *e is FuncCallExpr
}

/// The call that an expression consists of.
pub open spec fn call_of(e: Rc<Expr>) -> Rc<Call> {
    match *e {
        Expr::FuncCallExpr(c) => c,
        Expr::ValueExpr(_) => arbitrary(),
    }
}

/// The `i`-th argument of a call.
pub open spec fn arg_of(c: Rc<Call>, i: int) -> Rc<Expr> {
    c.args@[i]
}

/// The raw argument list of a call.
pub open spec fn raw_of(c: Rc<Call>) -> Rc<Expr> {
    c.tokens->Some_0
}

/// Resolution of the call `c` against the `k`-th of the signatures `cands`.
pub open spec fn resolve_for_candidate_call(
    env: Environment,
    sc: ScopeView,
    cands: Seq<Rc<Func>>,
    k: int,
    c: Rc<Call>,
    expected: Option<Type>,
) -> Result<(u32, Seq<Rc<Expr>>, ScopeView), ErrorView> {
    resolve_for_func_spec(env, sc, *cands[k], *c, expected)
}

/// Whether a call has a raw argument list.
pub open spec fn has_raw(c: Rc<Call>) -> bool {
    c.tokens is Some
}

/// The expected type of argument `i` for signature `f`.
pub open spec fn slot_type(f: Rc<Func>, i: int) -> Type {
    arg_slot(*f, i).0
}

/// The expression of an alias definition.
pub open spec fn item_expr(item: Rc<AliasSpecItem>) -> Rc<Expr> {
    item.expr
}

proof fn lemma_arg_of_smaller(c: Rc<Call>, i: int)
    requires
        0 <= i < c.args@.len(),
    ensures
        expr_size(*c.args@[i]) < call_size(*c),
{
    lemma_args_size_bound(c.args@, c.args@.len() as int, i);
}

/// The step of resolving the `i`-th argument of `c` for signature `f`.
pub open spec fn arg_step_at(
    env: Environment,
    sc: ScopeView,
    f: Rc<Func>,
    c: Rc<Call>,
    i: int,
    cost: u32,
) -> Result<(u32, ScopeView), ErrorView> {
    arg_step(resolve_expr_spec(env, sc, *c.args@[i], Some(arg_slot(*f, i).0)), *c.args@[i], arg_slot(*f, i).1, cost)
}

proof fn lemma_expr_keeps_aliases(env: Environment, sc: ScopeView, e: Rc<Expr>, expected: Option<Type>)
    ensures
        resolve_expr_spec(env, sc, *e, expected) is Ok ==> resolve_expr_spec(env, sc, *e, expected)->Ok_0.aliases
            == sc.aliases,
    decreases expr_size(*e), 0nat,
{
    if is_call(e) {
        lemma_call_keeps_aliases(env, sc, call_of(e), expected);
    }
}

proof fn lemma_call_keeps_aliases(env: Environment, sc: ScopeView, c: Rc<Call>, expected: Option<Type>)
    ensures
        resolve_call_spec(env, sc, *c, expected) is Ok ==> resolve_call_spec(env, sc, *c, expected)->Ok_0.aliases
            == sc.aliases,
    decreases call_size(*c), env.funcs@.len() + c.args@.len() + 3,
{
    lemma_variants_len(env.funcs@, c.name@);
    lemma_select_keeps_aliases(env, sc, c, expected, variants_of(env.funcs@, c.name@), 0, None);
}

proof fn lemma_select_keeps_aliases(
    env: Environment,
    sc: ScopeView,
    c: Rc<Call>,
    expected: Option<Type>,
    cands: Seq<Rc<Func>>,
    k: int,
    best: Option<Candidate>,
)
    requires
        0 <= k <= cands.len() <= env.funcs@.len(),
        best matches Some(b) ==> b.scope.aliases == sc.aliases,
    ensures
        select_spec(env, sc, *c, expected, cands, k, best) matches Ok(Some(r)) ==> r.scope.aliases == sc.aliases,
    decreases call_size(*c), cands.len() - k + c.args@.len() + 2,
{
    if k < cands.len() {
        lemma_for_func_keeps_aliases(env, sc, cands[k], c, expected);
        let res = resolve_for_candidate_call(env, sc, cands, k, c, expected);
        match res {
            Err(ErrorView::Internal(m)) => {},
            Err(_) => {
                lemma_select_keeps_aliases(env, sc, c, expected, cands, k + 1, best);
            },
            Ok((cost, args, sc2)) => {
                let cand = Candidate { cost, args, scope: sc2, func: cands[k] };
                let next = match best {
                    None => Some(cand),
                    Some(b) => if preferred(cand, b) {
                        Some(cand)
                    } else {
                        Some(b)
                    },
                };
                lemma_select_keeps_aliases(env, sc, c, expected, cands, k + 1, next);
            },
        }
    }
}

proof fn lemma_for_func_keeps_aliases(env: Environment, sc: ScopeView, f: Rc<Func>, c: Rc<Call>, expected: Option<Type>)
    ensures
        resolve_for_func_spec(env, sc, *f, *c, expected) is Ok ==> resolve_for_func_spec(
            env,
            sc,
            *f,
            *c,
            expected,
        )->Ok_0.2.aliases == sc.aliases,
    decreases call_size(*c), c.args@.len() + 1,
{
    if has_raw(c) {
        lemma_expr_keeps_aliases(env, sc, raw_of(c), Some(Type::Raw));
    }
    let base = match expected {
        None => Some(0u32),
        Some(t) => coercion_cost_spec(env.coercions@, f.out_type, t),
    };
    if let Some(cost0) = base {
        lemma_args_keeps_aliases(env, sc, f, c, 0, cost0, Seq::empty());
    }
}

proof fn lemma_args_keeps_aliases(
    env: Environment,
    sc: ScopeView,
    f: Rc<Func>,
    c: Rc<Call>,
    i: int,
    cost: u32,
    done: Seq<Rc<Expr>>,
)
    ensures
        resolve_args_spec(env, sc, *f, *c, i, cost, done) is Ok ==> resolve_args_spec(
            env,
            sc,
            *f,
            *c,
            i,
            cost,
            done,
        )->Ok_0.2.aliases == sc.aliases,
    decreases call_size(*c), c.args@.len() - i,
{
    if 0 <= i < c.args@.len() {
        lemma_arg_of_smaller(c, i);
        lemma_expr_keeps_aliases(env, sc, arg_of(c, i), Some(slot_type(f, i)));
        let step = arg_step_at(env, sc, f, c, i, cost);
        if let Ok((c2, sc2)) = step {
            lemma_args_keeps_aliases(env, sc2, f, c, i + 1, c2, done.push(arg_of(c, i)));
        }
    }
}

/// Resolving an alias specification without error defines every alias of it,
/// and keeps the aliases that were defined before.
pub proof fn law_spec_defines_its_aliases(
    env: Environment,
    sc: ScopeView,
    items: Seq<Rc<AliasSpecItem>>,
    expected: Option<Type>,
)
    requires
        resolve_items_spec(env, sc, items, expected).1 is None,
    ensures
        forall|i: int| 0 <= i < items.len() ==> resolve_items_spec(env, sc, items, expected).0.aliases.contains_key(
            (#[trigger] items[i]).alias@,
        ),
        forall|n: Seq<char>| #[trigger] sc.aliases.contains_key(n) ==> resolve_items_spec(env, sc, items, expected).0.aliases.contains_key(n),
    decreases items.len(),
{
    if items.len() > 0 {
        let p = items.drop_last();
        law_spec_defines_its_aliases(env, sc, p, expected);
        let sc1 = resolve_items_spec(env, sc, p, expected).0;
        let last = items.last();
        lemma_item_keeps_aliases(env, sc1, last, expected);
        let sc_end = resolve_items_spec(env, sc, items, expected).0;
        assert forall|i: int| 0 <= i < items.len() implies sc_end.aliases.contains_key((#[trigger] items[i]).alias@) by {
            if i < p.len() {
                assert(p[i] == items[i]);
            }
        }
    }
}

proof fn lemma_item_keeps_aliases(env: Environment, sc: ScopeView, item: Rc<AliasSpecItem>, expected: Option<Type>)
    requires
        resolve_item_spec(env, sc, *item, expected).1 is None,
    ensures
        resolve_item_spec(env, sc, *item, expected).0.aliases == sc.aliases.insert(item.alias@, *item.expr),
{
    lemma_expr_keeps_aliases(env, sc, item_expr(item), expected);
}


/// The scope and the error, if any, that a result of resolution leaves.
pub open spec fn outcome_of(sc: ScopeView, r: Result<ScopeView, ErrorView>) -> (ScopeView, Option<ErrorView>) {
    match r {
        Ok(sc2) => (sc2, None),
        Err(e) => (sc, Some(e)),
    }
}

/// A syntactic structure that supports static analysis in the resolve phase:
/// checking types and binding calls, with the findings recorded in the scope.
pub trait Resolve {
    /// The scope that resolving `self` leaves, and the error that stops it, if any.
    spec fn resolve_outcome(&self, env: Environment, sc: ScopeView, expected: Option<Type>) -> (
        ScopeView,
        Option<ErrorView>,
    );

    /// Resolves `self` at the expected type.
    fn resolve(&self, environment: &Environment, scope: &mut Scope, expected_type: Option<Type>) -> (r: Result<(), Error>)
        requires
            environment.wf(),
            aliases_recorded(old(scope)@),
        ensures
            final(scope)@ == self.resolve_outcome(*environment, old(scope)@, expected_type).0,
            match r {
                Ok(()) => self.resolve_outcome(*environment, old(scope)@, expected_type).1 is None,
                Err(e) => self.resolve_outcome(*environment, old(scope)@, expected_type).1 == Some(e@),
            },
            aliases_recorded(final(scope)@),
    ;
}

impl Resolve for Value {
    open spec fn resolve_outcome(&self, env: Environment, sc: ScopeView, expected: Option<Type>) -> (
        ScopeView,
        Option<ErrorView>,
    ) {
        outcome_of(sc, resolve_value_spec(env, sc, *self, expected))
    }

    fn resolve(&self, environment: &Environment, scope: &mut Scope, expected_type: Option<Type>) -> (r: Result<(), Error>) {
        Value::resolve(self, environment, scope, expected_type)
    }
}

impl Resolve for Expr {
    open spec fn resolve_outcome(&self, env: Environment, sc: ScopeView, expected: Option<Type>) -> (
        ScopeView,
        Option<ErrorView>,
    ) {
        outcome_of(sc, resolve_expr_spec(env, sc, *self, expected))
    }

    fn resolve(&self, environment: &Environment, scope: &mut Scope, expected_type: Option<Type>) -> (r: Result<(), Error>) {
        Expr::resolve(self, environment, scope, expected_type)
    }
}

impl Resolve for Call {
    open spec fn resolve_outcome(&self, env: Environment, sc: ScopeView, expected: Option<Type>) -> (
        ScopeView,
        Option<ErrorView>,
    ) {
        outcome_of(sc, resolve_call_spec(env, sc, *self, expected))
    }

    fn resolve(&self, environment: &Environment, scope: &mut Scope, expected_type: Option<Type>) -> (r: Result<(), Error>) {
        Call::resolve(self, environment, scope, expected_type)
    }
}

impl Resolve for AliasSpecItem {
    open spec fn resolve_outcome(&self, env: Environment, sc: ScopeView, expected: Option<Type>) -> (
        ScopeView,
        Option<ErrorView>,
    ) {
        resolve_item_spec(env, sc, *self, expected)
    }

    fn resolve(&self, environment: &Environment, scope: &mut Scope, expected_type: Option<Type>) -> (r: Result<(), Error>) {
        AliasSpecItem::resolve(self, environment, scope, expected_type)
    }
}

impl Resolve for AliasSpec {
    open spec fn resolve_outcome(&self, env: Environment, sc: ScopeView, expected: Option<Type>) -> (
        ScopeView,
        Option<ErrorView>,
    ) {
        resolve_items_spec(env, sc, self.items@, expected)
    }

    fn resolve(&self, environment: &Environment, scope: &mut Scope, expected_type: Option<Type>) -> (r: Result<(), Error>) {
        AliasSpec::resolve(self, environment, scope, expected_type)
    }
}

} // verus!
