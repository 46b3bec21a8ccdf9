//! Composition of identifiers and alias substitution: the verified core of the
//! `compose!` macro family.

pub mod error;
pub mod token;
pub mod types;
pub mod value;
pub mod format_string;
pub mod substitutions;
pub mod product;
pub mod ast;
pub mod env;
pub mod scope;
pub mod resolve;
pub mod interpreter;
pub mod substitute;
pub mod visitor;
pub mod parse;
pub mod grammar;
