//! Expressions of the alias language.

use vstd::prelude::*;
use std::rc::Rc;
use crate::value::{NodeId, Value};

verus! {

/// An expression: a value, or a call of a function.
#[derive(Debug)]
pub enum Expr {
    ValueExpr(Rc<Value>),
    FuncCallExpr(Rc<Call>),
}

/// A call of a function, such as `concat(foo, _, bar)`.
#[derive(Debug)]
pub struct Call {
    pub id: NodeId,
    /// Name of the called function.
    pub name: String,
    /// The arguments, as a comma-separated list.
    pub args: Vec<Rc<Expr>>,
    /// The whole argument list as a single raw-tokens value, when it is one.
    pub tokens: Option<Rc<Expr>>,
    /// The call as written.
    pub text: String,
    /// Where the call was written.
    pub span: proc_macro2::Span,
}

/// Duplicates a shared pointer.
///
/// Trusted: `Rc::clone`, which the standard library documents as making
/// another pointer to the same allocation, so the value pointed to is the same.
#[verifier::external_body]
pub(crate) fn rc_clone<T>(r: &Rc<T>) -> (c: Rc<T>)
    ensures
        c == *r,
{
    Rc::clone(r)
}

/// The identifier of the node that an expression consists of.
pub open spec fn expr_id(e: Expr) -> NodeId {
    match e {
        Expr::ValueExpr(v) => v.id,
        Expr::FuncCallExpr(c) => c.id,
    }
}

/// The span of an expression.
pub open spec fn expr_span(e: Expr) -> proc_macro2::Span {
    match e {
        Expr::ValueExpr(v) => v.span,
        Expr::FuncCallExpr(c) => c.span,
    }
}

/// Number of nodes in an expression.
pub open spec fn expr_size(e: Expr) -> nat
    decreases e, 0nat,
{
    match e {
        Expr::ValueExpr(_) => 1,
        Expr::FuncCallExpr(c) => 1 + call_size(*c),
    }
}

/// Number of nodes in a call.
pub open spec fn call_size(c: Call) -> nat
    decreases c, 0nat,
{
    1 + args_size(c.args@, c.args@.len() as int) + match c.tokens {
        Some(t) => expr_size(*t),
        None => 0,
    }
}

/// Number of nodes in the first `n` arguments.
pub open spec fn args_size(s: Seq<Rc<Expr>>, n: int) -> nat
    decreases s, n,
{
    if n <= 0 || n > s.len() {
        0
    } else {
        args_size(s, n - 1) + expr_size(*s[n - 1])
    }
}

/// An argument of a call is smaller than the call.
pub proof fn lemma_arg_smaller(c: Call, i: int)
    requires
        0 <= i < c.args@.len(),
    ensures
        expr_size(*c.args@[i]) < call_size(c),
{
    lemma_args_size_bound(c.args@, c.args@.len() as int, i);
}

/// Each of the first `n` arguments is no larger than those arguments together.
pub proof fn lemma_args_size_bound(s: Seq<Rc<Expr>>, n: int, i: int)
    requires
        0 <= i < n <= s.len(),
    ensures
        expr_size(*s[i]) <= args_size(s, n),
    decreases n,
{
    if i < n - 1 {
        lemma_args_size_bound(s, n - 1, i);
    }
}

impl Expr {
    /// The identifier of the node that the expression consists of.
    pub fn id(&self) -> (r: NodeId)
        ensures
            r == expr_id(*self),
    {
        match self {
            Expr::ValueExpr(v) => v.id,
            Expr::FuncCallExpr(c) => c.id,
        }
    }

    /// Where the expression was written.
    pub fn span(&self) -> (r: proc_macro2::Span)
        ensures
            r == expr_span(*self),
    {
        match self {
            Expr::ValueExpr(v) => v.span,
            Expr::FuncCallExpr(c) => c.span,
        }
    }
}

/// One alias definition of an alias specification, such as `name = expr`.
#[derive(Debug)]
pub struct AliasSpecItem {
    pub id: NodeId,
    /// The alias being defined.
    pub alias: String,
    /// The expression the alias stands for.
    pub expr: Rc<Expr>,
}

/// An alias specification: alias definitions in order.
#[derive(Debug)]
pub struct AliasSpec {
    pub id: NodeId,
    pub items: Vec<Rc<AliasSpecItem>>,
}

} // verus!
