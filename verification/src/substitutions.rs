//! The table of alias bindings that substitution works from.

use vstd::prelude::*;
use vstd::hash_map::StringHashMap;
use crate::value::Value;

verus! {

/// Bindings of alias names to their values.
pub struct Substitutions {
    map: StringHashMap<Value>,
}

impl View for Substitutions {
    type V = Map<Seq<char>, Value>;

    closed spec fn view(&self) -> Map<Seq<char>, Value> {
        self.map@
    }
}

impl Substitutions {
    /// An empty table.
    pub fn new() -> (s: Self)
        ensures
            s@ == Map::<Seq<char>, Value>::empty(),
    {
        Substitutions { map: StringHashMap::new() }
    }

    /// Binds `name` to `value`, replacing an earlier binding of `name`.
    pub fn insert(&mut self, name: String, value: Value)
        ensures
            final(self)@ == old(self)@.insert(name@, value),
    {
        self.map.insert(name, value);
    }

    /// The value bound to `name`, if any.
    pub fn get(&self, name: &str) -> (r: Option<&Value>)
        ensures
            match r {
                Some(v) => self@.contains_key(name@) && *v == self@[name@],
                None => !self@.contains_key(name@),
            },
    {
        self.map.get(name)
    }

    /// Whether `name` is bound.
    pub fn contains(&self, name: &str) -> (r: bool)
        ensures
            r == self@.contains_key(name@),
    {
        self.map.contains_key(name)
    }
}

} // verus!
