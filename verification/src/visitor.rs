//! The visitor that substitutes aliases in a code block, node by node.
//!
//! The block's syntax tree is walked elsewhere; for each node the walk hands
//! the node's tokens to [`AliasSubstitutionVisitor::visit_tokens`], together
//! with a validator that tells whether a stream still parses as a node of that
//! kind. The first error stops all further substitution.

use vstd::prelude::*;
use crate::error::Error;
use crate::substitute::{
    accepted, failure_of, rejected, substitute_idents, subst_tokens, substitution_failure, tokens_untouched, walk_start,
    walk_trace,
};
use crate::substitutions::Substitutions;
use crate::token::{copy_tokens, tokens_view, TokenTree};
use crate::value::Value;

verus! {

/// Replaces aliases in the nodes of a code block with their definitions, and
/// remembers the first error.
pub struct AliasSubstitutionVisitor {
    substitutions: Substitutions,
    error: Option<Error>,
}

impl AliasSubstitutionVisitor {
    /// The bindings the visitor substitutes.
    pub closed spec fn bindings(&self) -> Map<Seq<char>, Value> {
        self.substitutions@
    }

    /// The error that stopped the substitution, if one did.
    pub closed spec fn failure(&self) -> Option<Error> {
        self.error
    }

    /// Creates a visitor that substitutes `substitutions`, with no error yet.
    pub fn new(substitutions: Substitutions) -> (r: Self)
        ensures
            r.bindings() == substitutions@,
            r.failure() is None,
    {
        AliasSubstitutionVisitor { substitutions, error: None }
    }

    /// The error that occurred during the substitution, if any.
    pub fn error(&self) -> (r: Option<&Error>)
        ensures
            match r {
                Some(e) => self.failure() == Some(*e),
                None => self.failure() is None,
            },
    {
        self.error.as_ref()
    }

    /// Substitutes aliases in the tokens of one node and returns the node's new
    /// tokens.
    ///
    /// Once an error has occurred, nodes come back as they are. Otherwise the
    /// substitution runs; when it fails, its error is kept and the node comes
    /// back as it was.
    pub fn visit_tokens<F: Fn(&Vec<TokenTree>) -> Option<String>>(
        &mut self,
        tokens: Vec<TokenTree>,
        validate: &F,
    ) -> (r: Vec<TokenTree>)
        requires
            forall|s: &Vec<TokenTree>| validate.requires((s,)),
        ensures
            final(self).bindings() == old(self).bindings(),
            old(self).failure() is Some ==> final(self).failure() == old(self).failure() && tokens_view(r@)
                == tokens_view(tokens@),
            old(self).failure() is None ==> match final(self).failure() {
                None => tokens_view(r@) == subst_tokens(tokens_view(tokens@), old(self).bindings()),
                Some(e) => substitution_failure(e@, old(self).bindings()) && tokens_view(r@) == tokens_view(
                    tokens@,
                ),
            },
            old(self).failure() is None ==> ({
                let trace = walk_trace(walk_start(tokens_view(tokens@)), old(self).bindings());
                match final(self).failure() {
                    None => forall|k: int| 0 <= k < trace.len() ==> accepted(validate, #[trigger] trace[k].stream),
                    Some(e) => exists|k: int|
                        0 <= k < trace.len() && (forall|j: int|
                            0 <= j < k ==> accepted(validate, #[trigger] trace[j].stream)) && exists|msg: Seq<char>|
                            rejected(validate, #[trigger] trace[k].stream, msg) && e@ == failure_of(trace[k].last, msg),
                }
            }),
            old(self).failure() is None && tokens_untouched(tokens_view(tokens@), old(self).bindings())
                ==> final(self).failure() is None,
            old(self).failure() is None && (forall|s: &Vec<TokenTree>, o: Option<String>| call_ensures(
                validate,
                (s,),
                o,
            ) ==> o is None) ==> final(self).failure() is None,
    {
        if self.error.is_some() {
            return tokens;
        }
        let copy = copy_tokens(&tokens);
        match substitute_idents(copy, &self.substitutions, validate) {
            Ok(new_tokens) => new_tokens,
            Err(e) => {
                self.error = Some(e);
                tokens
            },
        }
    }
}

} // verus!
