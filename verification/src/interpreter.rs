//! The interpreter of the alias language.

use vstd::prelude::*;
use std::rc::Rc;
use crate::ast::AliasSpec;
use crate::env::Environment;
use crate::error::{Error, ErrorView};
use crate::resolve::{aliases_recorded, resolve_items_spec};
use crate::scope::{CallMetaView, Scope, ScopeView, ValueMetadata};
use crate::value::NodeId;

verus! {

/// Runs the phases of the macro over an alias specification.
///
/// Each invocation of the macro's body gets a fresh, global scope: its alias
/// specification is resolved in it, which type checks the definitions, binds
/// every call to a function signature and catches duplicate aliases.
pub struct Interpreter {
    /// The functions and coercions of the language.
    environment: Rc<Environment>,
}

/// The scope before any resolution: no aliases, no recorded facts.
pub open spec fn empty_scope() -> ScopeView {
    ScopeView {
        aliases: Map::<Seq<char>, crate::ast::Expr>::empty(),
        values: Map::<NodeId, ValueMetadata>::empty(),
        calls: Map::<NodeId, CallMetaView>::empty(),
    }
}

impl Interpreter {
    /// The environment the interpreter runs in.
    pub closed spec fn env(&self) -> Environment {
        *self.environment
    }

    /// Creates a new interpreter that runs in `environment`.
    pub fn new(environment: Rc<Environment>) -> (r: Self)
        ensures
            r.env() == *environment,
    {
        Interpreter { environment }
    }

    /// Resolves the alias specification of one invocation in a fresh scope and
    /// returns that scope.
    pub fn resolve_spec(&self, spec: &AliasSpec) -> (r: Result<Scope, Error>)
        requires
            self.env().wf(),
        ensures
            ({
                let (sc, err) = resolve_items_spec(self.env(), empty_scope(), spec.items@, None);
                match r {
                    Ok(scope) => err is None && scope@ == sc,
                    Err(e) => err == Some(e@),
                }
            }),
    {
        let mut scope = Scope::new();
        assert(scope@ =~= empty_scope());
        match spec.resolve(&self.environment, &mut scope, None) {
            Ok(()) => Ok(scope),
            Err(e) => Err(e),
        }
    }
}

} // verus!
