//! The functions and coercions that the alias language offers.

use vstd::prelude::*;
use std::rc::Rc;
use crate::ast::rc_clone;
use crate::types::Type;

verus! {

/// One signature of a built-in function.
#[derive(Debug)]
pub struct Func {
    /// Identifier of the signature; ties between equally good signatures go
    /// to the lower one.
    pub id: u64,
    pub name: String,
    /// Types of the arguments. For a variadic signature the last type is that
    /// of the repeated argument, which must occur at least once.
    pub arg_types: Vec<Type>,
    pub variadic: bool,
    /// Type of the result.
    pub out_type: Type,
    /// The signature as users read it, such as `lower(ident) -> ident`.
    pub signature: String,
}

/// Whether a signature is well formed: a variadic one has an argument type.
pub open spec fn func_wf(f: Func) -> bool {
    f.variadic ==> f.arg_types@.len() >= 1
}

/// Types of the arguments that are not repeated.
pub open spec fn non_variadic_types(f: Func) -> Seq<Type> {
    if f.variadic {
        f.arg_types@.drop_last()
    } else {
        f.arg_types@
    }
}

/// The cost of using a value of one type where another is expected.
#[derive(Debug, Clone, Copy)]
pub struct Coercion {
    pub from: Type,
    pub to: Type,
    pub cost: u32,
}

/// The built-in functions and the coercions between types.
#[derive(Debug)]
pub struct Environment {
    /// All signatures of all functions.
    pub funcs: Vec<Rc<Func>>,
    /// Coercions between distinct types; the first rule that applies counts.
    pub coercions: Vec<Coercion>,
}

/// The cost of coercing `from` to `to` by the first applicable rule of `rules`.
pub open spec fn rule_cost(rules: Seq<Coercion>, from: Type, to: Type) -> Option<u32>
    decreases rules.len(),
{
    if rules.len() == 0 {
        None
    } else if rules[0].from == from && rules[0].to == to {
        Some(rules[0].cost)
    } else {
        rule_cost(rules.drop_first(), from, to)
    }
}

/// The cost of coercing `from` to `to`: nothing for equal types, else by the
/// rules; `None` when no coercion exists.
pub open spec fn coercion_cost_spec(rules: Seq<Coercion>, from: Type, to: Type) -> Option<u32> {
    if from == to {
        Some(0)
    } else {
        rule_cost(rules, from, to)
    }
}

/// The signatures among `funcs` of the function called `name`, in order.
pub open spec fn variants_of(funcs: Seq<Rc<Func>>, name: Seq<char>) -> Seq<Rc<Func>>
    decreases funcs.len(),
{
    if funcs.len() == 0 {
        Seq::empty()
    } else {
        let rest = variants_of(funcs.drop_last(), name);
        if funcs.last().name@ == name {
            rest.push(funcs.last())
        } else {
            rest
        }
    }
}

impl Func {
    /// Whether the last argument repeats.
    pub fn is_variadic(&self) -> (r: bool)
        ensures
            r == self.variadic,
    {
        self.variadic
    }

    /// Number of argument types.
    pub fn num_args(&self) -> (r: usize)
        ensures
            r == self.arg_types@.len(),
    {
        self.arg_types.len()
    }

    /// Number of arguments that are not repeated.
    pub fn num_non_variadic(&self) -> (r: usize)
        requires
            func_wf(*self),
        ensures
            r == non_variadic_types(*self).len(),
    {
        if self.variadic {
            self.arg_types.len() - 1
        } else {
            self.arg_types.len()
        }
    }
}

impl Environment {
    /// Whether all signatures are well formed.
    pub open spec fn wf(&self) -> bool {
        forall|i: int| 0 <= i < self.funcs@.len() ==> func_wf(*#[trigger] self.funcs@[i])
    }

    /// The cost of coercing `from` to `to`, if it can be done.
    pub fn coercion_cost(&self, from: Type, to: Type) -> (r: Option<u32>)
        ensures
            r == coercion_cost_spec(self.coercions@, from, to),
    {
        if from == to {
            return Some(0);
        }
        let mut i: usize = 0;
        proof {
            assert(self.coercions@.skip(0) =~= self.coercions@);
        }
        while i < self.coercions.len()
            invariant
                i <= self.coercions@.len(),
                from != to,
                rule_cost(self.coercions@, from, to) == rule_cost(
                    self.coercions@.skip(i as int),
                    from,
                    to,
                ),
            decreases self.coercions.len() - i,
        {
            let rule = self.coercions[i];
            proof {
                assert(self.coercions@.skip(i as int).drop_first() =~= self.coercions@.skip(i + 1));
            }
            if rule.from == from && rule.to == to {
                return Some(rule.cost);
            }
            i = i + 1;
        }
        None
    }

    /// The signatures of the function called `name`, or `None` when there are none.
    pub fn get_func_variants(&self, name: &String) -> (r: Option<Vec<Rc<Func>>>)
        ensures
            match r {
                Some(v) => v@ == variants_of(self.funcs@, name@) && v@.len() > 0,
                None => variants_of(self.funcs@, name@).len() == 0,
            },
    {
        let mut out: Vec<Rc<Func>> = Vec::new();
        let mut i: usize = 0;
        while i < self.funcs.len()
            invariant
                i <= self.funcs@.len(),
                out@ == variants_of(self.funcs@.take(i as int), name@),
            decreases self.funcs.len() - i,
        {
            proof {
                assert(self.funcs@.take(i + 1).drop_last() =~= self.funcs@.take(i as int));
            }
            if self.funcs[i].name == *name {
                out.push(rc_clone(&self.funcs[i]));
            }
            i = i + 1;
        }
        proof {
            assert(self.funcs@.take(self.funcs@.len() as int) =~= self.funcs@);
        }
        if out.len() == 0 {
            None
        } else {
            Some(out)
        }
    }
}

} // verus!
