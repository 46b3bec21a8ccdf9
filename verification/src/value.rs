//! Values that aliases are bound to, and their textual form.

use vstd::prelude::*;
use crate::token::TokenTree;
use crate::types::Type;

verus! {

/// Identifier of a node of the syntax tree.
pub type NodeId = u64;

/// The payload of a [`Value`], by syntactic category.
///
/// Each variant holds, as text, what the substitution logic reads of the value:
/// an identifier's name, the names of a path's segments, a string literal's
/// contents, an integer literal as written, and for the other categories the
/// value's token stream as it is printed.
#[derive(Debug)]
pub enum ValueKind {
    Ident(String),
    Path(Vec<String>),
    Type(String),
    Expr(String),
    LitStr(String),
    LitInt(String),
    Tokens(String),
    Raw(String),
}

/// A value of the alias language: an argument or the result of an evaluated call.
#[derive(Debug)]
pub struct Value {
    pub id: NodeId,
    pub kind: ValueKind,
    /// The value's token form, which substitution splices into code.
    pub tokens: Vec<TokenTree>,
    /// The token form as printed.
    pub text: String,
    /// Where the value was written.
    pub span: proc_macro2::Span,
}

/// The segments of a path joined by `::`.
pub open spec fn join_path(segments: Seq<Seq<char>>) -> Seq<char>
    decreases segments.len(),
{
    if segments.len() == 0 {
        Seq::empty()
    } else if segments.len() == 1 {
        segments[0]
    } else {
        join_path(segments.drop_last()) + seq![':', ':'] + segments.last()
    }
}

/// The text that a value stands for inside a formatted string.
pub open spec fn value_text(kind: ValueKind) -> Seq<char> {
    match kind {
        ValueKind::Ident(s) => s@,
        ValueKind::Path(segments) => join_path(segments@.map_values(|s: String| s@)),
        ValueKind::Type(s) => s@,
        ValueKind::Expr(s) => s@,
        ValueKind::LitStr(s) => s@,
        ValueKind::LitInt(s) => s@,
        ValueKind::Tokens(s) => s@,
        ValueKind::Raw(s) => s@,
    }
}

/// The type of a value, given by its syntactic category.
pub open spec fn kind_type(kind: ValueKind) -> Type {
    match kind {
        ValueKind::Ident(_) => Type::Ident,
        ValueKind::Path(_) => Type::Path,
        ValueKind::Type(_) => Type::Type,
        ValueKind::Expr(_) => Type::Expr,
        ValueKind::LitStr(_) => Type::LitStr,
        ValueKind::LitInt(_) => Type::LitInt,
        ValueKind::Tokens(_) => Type::Tokens,
        ValueKind::Raw(_) => Type::Raw,
    }
}

impl Value {
    /// The type of the value.
    pub fn type_(&self) -> (t: Type)
        ensures
            t == kind_type(self.kind),
    {
        match &self.kind {
            ValueKind::Ident(_) => Type::Ident,
            ValueKind::Path(_) => Type::Path,
            ValueKind::Type(_) => Type::Type,
            ValueKind::Expr(_) => Type::Expr,
            ValueKind::LitStr(_) => Type::LitStr,
            ValueKind::LitInt(_) => Type::LitInt,
            ValueKind::Tokens(_) => Type::Tokens,
            ValueKind::Raw(_) => Type::Raw,
        }
    }
}

} // verus!
