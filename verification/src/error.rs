//! Errors raised while resolving and substituting aliases.

use vstd::prelude::*;
use crate::types::Type;

verus! {

/// The span of a piece of source code, as `proc_macro2` reports it.
///
/// Values of it are carried through the library into error reports; the
/// library never looks inside one.
#[verifier::external_type_specification]
#[verifier::external_body]
pub struct ExSpan(proc_macro2::Span);

/// Errors of the resolve and substitution phases.
#[derive(Debug)]
pub enum Error {
    /// An alias was defined twice: the alias and the span of its second definition.
    RedefinedNameError(String, proc_macro2::Span),
    /// A call names a function that the environment does not define.
    UndefinedFunctionError(String, proc_macro2::Span),
    /// No signature of a function accepts the arguments of a call: the
    /// function's signatures, the call as written, and the call's span.
    SignatureError(Vec<String>, String, proc_macro2::Span),
    /// A value of the first type cannot be used where the second is expected.
    CoercionError(Type, Type),
    /// Substituting an alias made the code invalid: the alias, the text that
    /// replaced it, the parser's complaint, and the alias's span.
    SubstitutionError(String, String, String, proc_macro2::Span),
    /// A condition that the library maintains itself did not hold.
    InternalError(String),
    /// The macro's input does not have the form of its grammar: a message and
    /// where the input was given.
    SyntaxError(String, proc_macro2::Span),
}

/// The mathematical content of an [`Error`].
#[verifier::ext_equal]
pub enum ErrorView {
    RedefinedName(Seq<char>, proc_macro2::Span),
    UndefinedFunction(Seq<char>, proc_macro2::Span),
    Signature(Seq<Seq<char>>, Seq<char>, proc_macro2::Span),
    Coercion(Type, Type),
    Substitution(Seq<char>, Seq<char>, Seq<char>, proc_macro2::Span),
    Internal(Seq<char>),
    Syntax(Seq<char>, proc_macro2::Span),
}

impl View for Error {
    type V = ErrorView;

    open spec fn view(&self) -> ErrorView {
        match self {
            Error::RedefinedNameError(s, sp) => ErrorView::RedefinedName(s@, *sp),
            Error::UndefinedFunctionError(s, sp) => ErrorView::UndefinedFunction(s@, *sp),
            Error::SignatureError(sigs, s, sp) => ErrorView::Signature(
                sigs@.map_values(|x: String| x@),
                s@,
                *sp,
            ),
            Error::CoercionError(a, b) => ErrorView::Coercion(*a, *b),
            Error::SubstitutionError(a, b, m, sp) => ErrorView::Substitution(a@, b@, m@, *sp),
            Error::InternalError(s) => ErrorView::Internal(s@),
            Error::SyntaxError(s, sp) => ErrorView::Syntax(s@, *sp),
        }
    }
}

} // verus!
