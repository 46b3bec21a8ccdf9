//! The scope of the resolve phase: defined aliases and facts recorded about nodes.

use vstd::prelude::*;
use std::rc::Rc;
use crate::ast::{expr_span, rc_clone, Expr};
use crate::env::Func;
use crate::error::{Error, ErrorView};
use crate::types::Type;
use crate::value::NodeId;

verus! {

/// A copy operation whose result has the same view as the value copied.
pub trait Duplicate: View + Sized {
    fn duplicate(&self) -> (r: Self)
        ensures
            r@ == self@,
    ;
}

/// What resolution recorded about a value: the type it is used at and the
/// cost of coercing it to that type.
#[derive(Debug, Clone, Copy)]
pub struct ValueMetadata {
    pub target_type: Type,
    pub coercion_cost: u32,
}

impl View for ValueMetadata {
    type V = ValueMetadata;

    open spec fn view(&self) -> ValueMetadata {
        *self
    }
}

impl Duplicate for ValueMetadata {
    fn duplicate(&self) -> (r: Self) {
        *self
    }
}

/// What resolution recorded about a call: its resolved arguments, the chosen
/// signature, the type its result is used at and the total coercion cost.
#[derive(Debug)]
pub struct CallMetadata {
    pub args: Vec<Rc<Expr>>,
    pub func: Rc<Func>,
    pub target_type: Type,
    pub coercion_cost: u32,
}

/// The mathematical content of a [`CallMetadata`].
pub struct CallMetaView {
    pub args: Seq<Rc<Expr>>,
    pub func: Rc<Func>,
    pub target_type: Type,
    pub coercion_cost: u32,
}

impl View for CallMetadata {
    type V = CallMetaView;

    open spec fn view(&self) -> CallMetaView {
        CallMetaView {
            args: self.args@,
            func: self.func,
            target_type: self.target_type,
            coercion_cost: self.coercion_cost,
        }
    }
}

/// Copies a vector of shared pointers, pointer by pointer.
pub fn copy_rc_vec<T>(v: &Vec<Rc<T>>) -> (r: Vec<Rc<T>>)
    ensures
        r@ == v@,
{
    let mut r: Vec<Rc<T>> = Vec::new();
    let mut i: usize = 0;
    while i < v.len()
        invariant
            i <= v@.len(),
            r@ == v@.take(i as int),
        decreases v.len() - i,
    {
        r.push(rc_clone(&v[i]));
        proof {
            assert(v@.take(i + 1) =~= v@.take(i as int).push(v@[i as int]));
        }
        i = i + 1;
    }
    proof {
        assert(v@.take(v@.len() as int) =~= v@);
    }
    r
}

impl Duplicate for CallMetadata {
    fn duplicate(&self) -> (r: Self) {
        CallMetadata {
            args: copy_rc_vec(&self.args),
            func: rc_clone(&self.func),
            target_type: self.target_type,
            coercion_cost: self.coercion_cost,
        }
    }
}

/// The map that a list of `(id, entry)` pairs stands for: later pairs win.
pub open spec fn table_map<V: View>(s: Seq<(NodeId, V)>) -> Map<NodeId, V::V>
    decreases s.len(),
{
    if s.len() == 0 {
        Map::empty()
    } else {
        table_map(s.drop_last()).insert(s.last().0, s.last().1@)
    }
}

proof fn lemma_table_map_lookup<V: View>(s: Seq<(NodeId, V)>, id: NodeId, j: int)
    requires
        -1 <= j < s.len(),
        j >= 0 ==> s[j].0 == id,
        forall|k: int| j < k < s.len() ==> (#[trigger] s[k]).0 != id,
    ensures
        j >= 0 ==> table_map(s).contains_key(id) && table_map(s)[id] == s[j].1@,
        j < 0 ==> !table_map(s).contains_key(id),
    decreases s.len(),
{
    if s.len() > 0 {
        if j == s.len() - 1 {
        } else {
            let p = s.drop_last();
            assert forall|k: int| j < k < p.len() implies (#[trigger] p[k]).0 != id by {
                assert(p[k] == s[k]);
            }
            assert(s[s.len() - 1].0 != id);
            lemma_table_map_lookup(p, id, j);
            if j >= 0 {
                assert(p[j] == s[j]);
            }
        }
    }
}

/// A table of entries by node identifier.
pub struct IdTable<V> {
    entries: Vec<(NodeId, V)>,
}

impl<V: Duplicate> View for IdTable<V> {
    type V = Map<NodeId, V::V>;

    closed spec fn view(&self) -> Map<NodeId, V::V> {
        table_map(self.entries@)
    }
}

impl<V: Duplicate> IdTable<V> {
    /// An empty table.
    pub fn new() -> (r: Self)
        ensures
            r@ == Map::<NodeId, V::V>::empty(),
    {
        IdTable { entries: Vec::new() }
    }

    /// Records `entry` for `id`, replacing an earlier one.
    pub fn set(&mut self, id: NodeId, entry: V)
        ensures
            final(self)@ == old(self)@.insert(id, entry@),
    {
        self.entries.push((id, entry));
        proof {
            assert(self.entries@.drop_last() =~= old(self).entries@);
        }
    }

    /// The entry recorded for `id`, if any.
    pub fn get(&self, id: NodeId) -> (r: Option<&V>)
        ensures
            match r {
                Some(e) => self@.contains_key(id) && e@ == self@[id],
                None => !self@.contains_key(id),
            },
    {
        let mut i: usize = self.entries.len();
        while i > 0
            invariant
                i <= self.entries@.len(),
                forall|k: int| i <= k < self.entries@.len() ==> (#[trigger] self.entries@[k]).0 != id,
            decreases i,
        {
            i = i - 1;
            if self.entries[i].0 == id {
                proof {
                    lemma_table_map_lookup(self.entries@, id, i as int);
                }
                return Some(&self.entries[i].1);
            }
        }
        proof {
            lemma_table_map_lookup(self.entries@, id, -1);
        }
        None
    }

    /// A copy of the table.
    pub fn duplicate_table(&self) -> (r: Self)
        ensures
            r@ == self@,
    {
        let mut entries: Vec<(NodeId, V)> = Vec::new();
        let mut i: usize = 0;
        while i < self.entries.len()
            invariant
                i <= self.entries@.len(),
                entries@.len() == i,
                forall|k: int| 0 <= k < i ==> (#[trigger] entries@[k]).0 == self.entries@[k].0
                    && entries@[k].1@ == self.entries@[k].1@,
            decreases self.entries.len() - i,
        {
            let e = &self.entries[i];
            entries.push((e.0, e.1.duplicate()));
            i = i + 1;
        }
        proof {
            lemma_same_table(entries@, self.entries@);
        }
        IdTable { entries }
    }
}

proof fn lemma_same_table<V: View>(a: Seq<(NodeId, V)>, b: Seq<(NodeId, V)>)
    requires
        a.len() == b.len(),
        forall|k: int| 0 <= k < a.len() ==> (#[trigger] a[k]).0 == b[k].0 && a[k].1@ == b[k].1@,
    ensures
        table_map(a) == table_map(b),
    decreases a.len(),
{
    if a.len() > 0 {
        let (pa, pb) = (a.drop_last(), b.drop_last());
        assert forall|k: int| 0 <= k < pa.len() implies (#[trigger] pa[k]).0 == pb[k].0 && pa[k].1@ == pb[k].1@ by {
            assert(pa[k] == a[k] && pb[k] == b[k]);
        }
        lemma_same_table(pa, pb);
        assert(a[a.len() - 1].0 == b[b.len() - 1].0);
    }
}

/// Facts recorded about nodes during resolution.
pub struct AstMetadata {
    values: IdTable<ValueMetadata>,
    calls: IdTable<CallMetadata>,
}

impl AstMetadata {
    /// Recorded value facts by node.
    pub closed spec fn values(&self) -> Map<NodeId, ValueMetadata> {
        self.values@
    }

    /// Recorded call facts by node.
    pub closed spec fn calls(&self) -> Map<NodeId, CallMetaView> {
        self.calls@
    }

    /// No facts at all.
    pub fn new() -> (r: Self)
        ensures
            r.values() == Map::<NodeId, ValueMetadata>::empty(),
            r.calls() == Map::<NodeId, CallMetaView>::empty(),
    {
        AstMetadata { values: IdTable::new(), calls: IdTable::new() }
    }

    /// The facts recorded about value `id`.
    pub fn get_value_metadata(&self, id: NodeId) -> (r: Option<&ValueMetadata>)
        ensures
            match r {
                Some(m) => self.values().contains_key(id) && *m == self.values()[id],
                None => !self.values().contains_key(id),
            },
    {
        self.values.get(id)
    }

    /// The facts recorded about call `id`.
    pub fn get_call_metadata(&self, id: NodeId) -> (r: Option<&CallMetadata>)
        ensures
            match r {
                Some(m) => self.calls().contains_key(id) && m@ == self.calls()[id],
                None => !self.calls().contains_key(id),
            },
    {
        self.calls.get(id)
    }

    /// Records the type that value `id` is used at and its coercion cost.
    pub fn set_value_metadata(&mut self, id: NodeId, target_type: Type, coercion_cost: u32)
        ensures
            final(self).values() == old(self).values().insert(
                id,
                ValueMetadata { target_type, coercion_cost },
            ),
            final(self).calls() == old(self).calls(),
    {
        self.values.set(id, ValueMetadata { target_type, coercion_cost });
    }

    /// Records the resolution of call `id`.
    pub fn set_call_metadata(
        &mut self,
        id: NodeId,
        args: Vec<Rc<Expr>>,
        func: Rc<Func>,
        target_type: Type,
        coercion_cost: u32,
    )
        ensures
            final(self).calls() == old(self).calls().insert(
                id,
                CallMetaView { args: args@, func, target_type, coercion_cost },
            ),
            final(self).values() == old(self).values(),
    {
        self.calls.set(id, CallMetadata { args, func, target_type, coercion_cost });
    }

    /// A copy of the facts.
    pub fn duplicate(&self) -> (r: Self)
        ensures
            r.values() == self.values(),
            r.calls() == self.calls(),
    {
        AstMetadata { values: self.values.duplicate_table(), calls: self.calls.duplicate_table() }
    }
}

/// The map that a list of `(name, expression)` pairs stands for: later pairs win.
pub open spec fn alias_map(s: Seq<(String, Rc<Expr>)>) -> Map<Seq<char>, Expr>
    decreases s.len(),
{
    if s.len() == 0 {
        Map::empty()
    } else {
        alias_map(s.drop_last()).insert(s.last().0@, *s.last().1)
    }
}

proof fn lemma_alias_map_lookup(s: Seq<(String, Rc<Expr>)>, name: Seq<char>, j: int)
    requires
        -1 <= j < s.len(),
        j >= 0 ==> s[j].0@ == name,
        forall|k: int| j < k < s.len() ==> (#[trigger] s[k]).0@ != name,
    ensures
        j >= 0 ==> alias_map(s).contains_key(name) && alias_map(s)[name] == *s[j].1,
        j < 0 ==> !alias_map(s).contains_key(name),
    decreases s.len(),
{
    if s.len() > 0 {
        if j == s.len() - 1 {
        } else {
            let p = s.drop_last();
            assert forall|k: int| j < k < p.len() implies (#[trigger] p[k]).0@ != name by {
                assert(p[k] == s[k]);
            }
            assert(s[s.len() - 1].0@ != name);
            lemma_alias_map_lookup(p, name, j);
            if j >= 0 {
                assert(p[j] == s[j]);
            }
        }
    }
}

/// The mathematical content of a [`Scope`].
#[verifier::ext_equal]
pub struct ScopeView {
    /// The aliases defined so far, each with the expression it stands for.
    pub aliases: Map<Seq<char>, Expr>,
    /// Facts recorded about values.
    pub values: Map<NodeId, ValueMetadata>,
    /// Facts recorded about calls.
    pub calls: Map<NodeId, CallMetaView>,
}

impl View for Scope {
    type V = ScopeView;

    open spec fn view(&self) -> ScopeView {
        ScopeView {
            aliases: self.aliases(),
            values: self.meta().values(),
            calls: self.meta().calls(),
        }
    }
}

/// Lexical scope used during the resolve phase: the aliases defined so far,
/// each with the expression it stands for, and the facts recorded about nodes.
pub struct Scope {
    aliases: Vec<(String, Rc<Expr>)>,
    metadata: AstMetadata,
}

impl Scope {
    /// The aliases defined so far.
    pub closed spec fn aliases(&self) -> Map<Seq<char>, Expr> {
        alias_map(self.aliases@)
    }

    /// The facts recorded so far.
    pub closed spec fn meta(&self) -> AstMetadata {
        self.metadata
    }

    /// An empty scope.
    pub fn new() -> (r: Self)
        ensures
            r.aliases() == Map::<Seq<char>, Expr>::empty(),
            r.meta().values() == Map::<NodeId, ValueMetadata>::empty(),
            r.meta().calls() == Map::<NodeId, CallMetaView>::empty(),
    {
        Scope { aliases: Vec::new(), metadata: AstMetadata::new() }
    }

    /// Tries to add a new alias into the scope, returning an error on re-definition.
    pub fn try_add_name(&mut self, name: String, item: Rc<Expr>) -> (r: Result<(), Error>)
        ensures
            final(self).meta() == old(self).meta(),
            match r {
                Ok(()) => !old(self).aliases().contains_key(name@) && final(self).aliases()
                    == old(self).aliases().insert(name@, *item),
                Err(e) => old(self).aliases().contains_key(name@) && e@ == ErrorView::RedefinedName(
                    name@,
                    expr_span(*item),
                ) && final(self).aliases() == old(self).aliases(),
            },
    {
        if self.get_name(name.as_str()).is_some() {
            return Err(Error::RedefinedNameError(name, item.span()));
        }
        self.aliases.push((name, item));
        proof {
            assert(self.aliases@.drop_last() =~= old(self).aliases@);
        }
        Ok(())
    }

    /// The expression that alias `name` stands for, if it is defined.
    pub fn get_name(&self, name: &str) -> (r: Option<Rc<Expr>>)
        ensures
            match r {
                Some(e) => self.aliases().contains_key(name@) && *e == self.aliases()[name@],
                None => !self.aliases().contains_key(name@),
            },
    {
        let key = name.to_string();
        proof {
            broadcast use vstd::string::group_string_axioms;
        }
        let mut i: usize = self.aliases.len();
        while i > 0
            invariant
                i <= self.aliases@.len(),
                key@ == name@,
                forall|k: int| i <= k < self.aliases@.len() ==> (#[trigger] self.aliases@[k]).0@ != name@,
            decreases i,
        {
            i = i - 1;
            if self.aliases[i].0 == key {
                proof {
                    lemma_alias_map_lookup(self.aliases@, name@, i as int);
                }
                return Some(rc_clone(&self.aliases[i].1));
            }
        }
        proof {
            lemma_alias_map_lookup(self.aliases@, name@, -1);
        }
        None
    }

    /// The facts recorded so far.
    pub fn metadata_rc(&self) -> (r: &AstMetadata)
        ensures
            *r == self.meta(),
    {
        &self.metadata
    }

    /// Mutable access to the facts recorded so far.
    pub fn metadata_mut(&mut self) -> (r: &mut AstMetadata)
        ensures
            *r == old(self).meta(),
            final(self).meta() == *final(r),
            final(self).aliases() == old(self).aliases(),
    {
        &mut self.metadata
    }

    /// A copy of the scope that shares nothing mutable with it.
    pub fn deep_clone(&self) -> (r: Self)
        ensures
            r.aliases() == self.aliases(),
            r.meta().values() == self.meta().values(),
            r.meta().calls() == self.meta().calls(),
    {
        let mut aliases: Vec<(String, Rc<Expr>)> = Vec::new();
        let mut i: usize = 0;
        while i < self.aliases.len()
            invariant
                i <= self.aliases@.len(),
                aliases@.len() == i,
                forall|k: int| 0 <= k < i ==> (#[trigger] aliases@[k]).0@ == self.aliases@[k].0@
                    && *aliases@[k].1 == *self.aliases@[k].1,
            decreases self.aliases.len() - i,
        {
            let e = &self.aliases[i];
            aliases.push((e.0.clone(), rc_clone(&e.1)));
            i = i + 1;
        }
        proof {
            lemma_same_aliases(aliases@, self.aliases@);
        }
        Scope { aliases, metadata: self.metadata.duplicate() }
    }
}

proof fn lemma_same_aliases(a: Seq<(String, Rc<Expr>)>, b: Seq<(String, Rc<Expr>)>)
    requires
        a.len() == b.len(),
        forall|k: int| 0 <= k < a.len() ==> (#[trigger] a[k]).0@ == b[k].0@ && *a[k].1 == *b[k].1,
    ensures
        alias_map(a) == alias_map(b),
    decreases a.len(),
{
    if a.len() > 0 {
        let (pa, pb) = (a.drop_last(), b.drop_last());
        assert forall|k: int| 0 <= k < pa.len() implies (#[trigger] pa[k]).0@ == pb[k].0@ && *pa[k].1 == *pb[k].1 by {
            assert(pa[k] == a[k] && pb[k] == b[k]);
        }
        lemma_same_aliases(pa, pb);
        assert(a[a.len() - 1].0@ == b[b.len() - 1].0@);
    }
}

/// An alias stays bound to the same expression through later additions: an
/// addition that succeeds binds a name that was not bound (see
/// [`Scope::try_add_name`]), which leaves every earlier binding as it was.
pub proof fn law_binding_persists(before: Map<Seq<char>, Expr>, name: Seq<char>, added: Seq<char>, e: Expr)
    requires
        before.contains_key(name),
        !before.contains_key(added),
    ensures
        before.insert(added, e).contains_key(name),
        before.insert(added, e)[name] == before[name],
{
}

} // verus!
