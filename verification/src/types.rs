//! The types of the alias language.

use vstd::prelude::*;

verus! {

/// Type of a value or of a function's argument or result.
#[derive(Debug, Clone, Copy, PartialEq, Eq, Structural)]
pub enum Type {
    Ident,
    Path,
    Type,
    Expr,
    LitStr,
    LitInt,
    Tokens,
    Raw,
}

} // verus!
