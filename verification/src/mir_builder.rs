//! A builder for one MIR function: its blocks, the block being filled, a
//! counter of fresh SSA variables, nested scopes of named variables, the
//! variables already consumed, and what is known of each SSA variable.

use vstd::prelude::*;
use crate::mir::{BasicBlock, MirArgument, MirBinOp, MirFunction, MirInstruction, MirLiteral, MirOperand, MirTerminator};
use crate::registry::{entry_names, find_entry, first_index_of, put_entry};
use crate::ssa_set::SsaMap;
use crate::text::nat_digits;
use std::collections::HashSet;
use crate::types::{OnuType, ty_equiv};

verus! {

/// A variable bound in a scope: its SSA variable, its type, and whether it
/// is an observation (a borrow) rather than an owned value.
pub type Binding = (usize, OnuType, bool);

/// What a builder holds, as mathematical values.
pub struct BuilderModel {
    pub name: Seq<char>,
    pub return_type: OnuType,
    pub args: Seq<MirArgument>,
    pub blocks: Seq<BasicBlock>,
    pub current: Option<usize>,
    pub next_ssa: usize,
    pub scopes: Seq<Seq<(String, Binding)>>,
    pub consumed: Set<usize>,
    pub types: Map<usize, OnuType>,
    pub dynamic: Map<usize, bool>,
    /// The variables scheduled to be dropped (with their types), in order.
    pub pending: Seq<(usize, OnuType)>,
}

/// The binding of `name` in the innermost scope that binds it.
pub open spec fn innermost_binding(scopes: Seq<Seq<(String, Binding)>>, name: Seq<char>) -> Option<Binding>
    decreases scopes.len(),
{
    if scopes.len() == 0 {
        None
    } else {
        match first_index_of(entry_names(scopes.last()), name) {
            Some(i) => Some(scopes.last()[i].1),
            None => innermost_binding(scopes.drop_last(), name),
        }
    }
}

/// `after` maps `k` to a copy of `t` (equal up to the representation of
/// tuple types) and every other key as `before` does.
pub open spec fn types_put(before: Map<usize, OnuType>, after: Map<usize, OnuType>, k: usize, t: OnuType) -> bool {
    &&& after.dom() == before.dom().insert(k)
    &&& ty_equiv(after[k], t)
    &&& forall|j: usize| j != k && before.contains_key(j) ==> after[j] == before[j]
}

/// `after` is `before` with `name` bound to `b`: the first entry of that
/// name replaced, or a new entry appended.
pub open spec fn scope_put(before: Seq<(String, Binding)>, after: Seq<(String, Binding)>, name: Seq<char>, b: Binding) -> bool {
    match first_index_of(entry_names(before), name) {
        Some(i) => after == before.update(i, (before[i].0, b)),
        None => after.len() == before.len() + 1 && after.drop_last() == before
            && after.last().0@ == name && after.last().1 == b,
    }
}

/// The bindings of a scope whose variables are not consumed, in order.
pub open spec fn live_bindings(scope: Seq<(String, Binding)>, consumed: Set<usize>) -> Seq<Binding>
    decreases scope.len(),
{
    if scope.len() == 0 {
        Seq::empty()
    } else {
        let rest = live_bindings(scope.drop_last(), consumed);
        if consumed.contains(scope.last().1.0) { rest } else { rest.push(scope.last().1) }
    }
}

/// `after` is `before` with `inst` appended to the current block (and
/// nothing else changed); with no current block nothing changes.
pub open spec fn emitted(before: BuilderModel, after: BuilderModel, inst: MirInstruction) -> bool {
    &&& after == (BuilderModel { blocks: after.blocks, ..before })
    &&& match before.current {
        Some(i) => {
            &&& after.blocks.len() == before.blocks.len()
            &&& forall|j: int| 0 <= j < before.blocks.len() && j != i ==> after.blocks[j] == before.blocks[j]
            &&& after.blocks[i as int].id == before.blocks[i as int].id
            &&& after.blocks[i as int].terminator == before.blocks[i as int].terminator
            &&& after.blocks[i as int].instructions@ == before.blocks[i as int].instructions@.push(inst)
        },
        None => after.blocks == before.blocks,
    }
}

/// A set with the same elements, built by inserting each of them.
fn clone_set(s: &HashSet<usize>) -> (r: HashSet<usize>)
    ensures
        r@ == s@,
{
    broadcast use vstd::std_specs::hash::group_hash_axioms;
    let mut out: HashSet<usize> = HashSet::new();
    let ghost keys = vstd::std_specs::iter::IteratorSpec::remaining(&vstd::std_specs::hash::spec_hash_keys_iter(s));
    proof {
        vstd::std_specs::hash::axiom_spec_hash_keys_iter(s);
    }
    for x in it: s.iter()
        invariant
            it.seq() == keys,
            keys.unref().to_set() == s@,
            forall|k: usize| out@.contains(k) <==> exists|j: int| 0 <= j < it.index() && *keys[j] == k,
    {
        out.insert(*x);
        proof {
            assert forall|k: usize| out@.contains(k) <==> exists|j: int| 0 <= j < it.index() + 1 && *keys[j] == k by {
                if k == *x {
                    assert(*keys[it.index()] == k);
                }
            }
        }
    }
    proof {
        assert forall|k: usize| out@.contains(k) <==> s@.contains(k) by {
            if out@.contains(k) {
                let j = choose|j: int| 0 <= j < keys.len() && *keys[j] == k;
                assert(keys.unref()[j] == k);
            }
            if s@.contains(k) {
                assert(keys.unref().contains(k));
                let j = choose|j: int| 0 <= j < keys.unref().len() && keys.unref()[j] == k;
                assert(*keys[j] == k);
            }
        }
        assert(out@ =~= s@);
    }
    out
}

/// The scheduled drops that are owed: each scheduled variable that is not
/// in `consumed`, once (its first scheduling), in order.
pub open spec fn owed(p: Seq<(usize, OnuType)>, consumed: Set<usize>) -> Seq<(usize, OnuType)>
    decreases p.len(),
{
    if p.len() == 0 {
        Seq::empty()
    } else {
        let l = owed(p.drop_last(), consumed);
        let e = p.last();
        if consumed.contains(e.0) || (exists|k: int| 0 <= k < l.len() && #[trigger] l[k].0 == e.0) {
            l
        } else {
            l.push(e)
        }
    }
}

/// One listed drop: the variable and its type, a name (`drop_` and the
/// variable's number), and whether the variable is dynamic.
pub open spec fn drop_entry(r: (usize, OnuType, String, bool), e: (usize, OnuType), dynamic: Map<usize, bool>) -> bool {
    &&& r.0 == e.0
    &&& ty_equiv(r.1, e.1)
    &&& r.2@ == "drop_"@ + nat_digits(e.0 as nat)
    &&& r.3 == (dynamic.contains_key(e.0) && dynamic[e.0])
}

/// `r` lists the drops `owed`, in order.
pub open spec fn drops_listed(r: Seq<(usize, OnuType, String, bool)>, owed: Seq<(usize, OnuType)>, dynamic: Map<usize, bool>) -> bool {
    &&& r.len() == owed.len()
    &&& forall|k: int| 0 <= k < r.len() ==> #[trigger] drop_entry(r[k], owed[k], dynamic)
}

/// Whether a variable is among those already listed.
fn listed(v: &Vec<(usize, OnuType, String, bool)>, id: usize) -> (r: bool)
    ensures
        r == exists|k: int| 0 <= k < v@.len() && #[trigger] v@[k].0 == id,
{
    let mut i: usize = 0;
    while i < v.len()
        invariant
            i <= v@.len(),
            forall|k: int| 0 <= k < i ==> v@[k].0 != id,
        decreases v.len() - i,
    {
        if v[i].0 == id {
            return true;
        }
        i = i + 1;
    }
    false
}

/// The builder of one MIR function.
pub struct MirBuilder {
    name: String,
    return_type: OnuType,
    args: Vec<MirArgument>,
    blocks: Vec<BasicBlock>,
    current_block_idx: Option<usize>,
    next_ssa: usize,
    scopes: Vec<Vec<(String, Binding)>>,
    consumed_vars: HashSet<usize>,
    ssa_types: SsaMap<OnuType>,
    ssa_is_dynamic: SsaMap<bool>,
    pending_drops: Vec<(usize, OnuType)>,
}

impl View for MirBuilder {
    type V = BuilderModel;

    closed spec fn view(&self) -> BuilderModel {
        BuilderModel {
            name: self.name@,
            return_type: self.return_type,
            args: self.args@,
            blocks: self.blocks@,
            current: self.current_block_idx,
            next_ssa: self.next_ssa,
            scopes: self.scopes@.map_values(|s: Vec<(String, Binding)>| s@),
            consumed: self.consumed_vars@,
            types: self.ssa_types@,
            dynamic: self.ssa_is_dynamic@,
            pending: self.pending_drops@,
        }
    }
}

impl MirBuilder {
    /// The builder's internal consistency: the current block exists and every
    /// block's id is its position.
    pub closed spec fn wf(&self) -> bool {
        &&& self.ssa_types.wf()
        &&& self.ssa_is_dynamic.wf()
        &&& (self.current_block_idx matches Some(i) ==> i < self.blocks@.len())
        &&& forall|j: int| 0 <= j < self.blocks@.len() ==> (#[trigger] self.blocks@[j]).id == j
    }

    /// A builder for a function of the given name and return type, with one
    /// empty entry block (id 0) that is current, and one empty scope.
    pub fn new(name: String, return_type: OnuType) -> (r: MirBuilder)
        ensures
            r.wf(),
            r@.name == name@,
            r@.return_type == return_type,
            r@.args.len() == 0,
            r@.blocks.len() == 1,
            r@.blocks[0].id == 0,
            r@.blocks[0].instructions@.len() == 0,
            r@.blocks[0].terminator == MirTerminator::Unreachable,
            r@.current == Some(0usize),
            r@.next_ssa == 0,
            r@.scopes == seq![Seq::<(String, Binding)>::empty()],
            r@.consumed == Set::<usize>::empty(),
            r@.types == Map::<usize, OnuType>::empty(),
            r@.dynamic == Map::<usize, bool>::empty(),
            r@.pending.len() == 0,
    {
        let entry = BasicBlock { id: 0, instructions: Vec::new(), terminator: MirTerminator::Unreachable };
        let r = MirBuilder {
            name,
            return_type,
            args: Vec::new(),
            blocks: vec![entry],
            current_block_idx: Some(0),
            next_ssa: 0,
            scopes: vec![Vec::new()],
            consumed_vars: HashSet::new(),
            ssa_types: SsaMap::new(),
            ssa_is_dynamic: SsaMap::new(),
            pending_drops: Vec::new(),
        };
        proof {
            assert(r@.scopes =~= seq![Seq::<(String, Binding)>::empty()]);
            assert(r@.consumed =~= Set::<usize>::empty());
        }
        r
    }

    /// Adds a parameter bound to `ssa_var`; its type is recorded and it is
    /// not dynamic (the caller owns it).
    pub fn add_arg(&mut self, name: String, typ: OnuType, ssa_var: usize)
        requires
            old(self).wf(),
        ensures
            final(self).wf(),
            types_put(old(self)@.types, final(self)@.types, ssa_var, typ),
            final(self)@ == (BuilderModel {
                args: old(self)@.args.push(MirArgument { name, typ, ssa_var }),
                types: final(self)@.types,
                dynamic: old(self)@.dynamic.insert(ssa_var, false),
                ..old(self)@
            }),
    {
        self.ssa_types.insert(ssa_var, typ.dup());
        self.ssa_is_dynamic.insert(ssa_var, false);
        self.args.push(MirArgument { name, typ, ssa_var });
    }

    /// A fresh SSA variable: the counter's value, which then moves on.
    pub fn new_ssa(&mut self) -> (id: usize)
        requires
            old(self).wf(),
            old(self)@.next_ssa < usize::MAX,
        ensures
            final(self).wf(),
            id == old(self)@.next_ssa,
            final(self)@ == ssa_step(old(self)@),
    {
        let id = self.next_ssa;
        self.next_ssa = self.next_ssa + 1;
        id
    }

    /// Binds `name` to `ssa_var` in the innermost scope (replacing an
    /// earlier binding of that name there), records the variable's type, and
    /// marks it not dynamic unless it was already marked.
    pub fn define_variable(&mut self, name: &str, ssa_var: usize, typ: OnuType, is_observation: bool)
        requires
            old(self).wf(),
        ensures
            final(self).wf(),
            types_put(old(self)@.types, final(self)@.types, ssa_var, typ),
            final(self)@.dynamic == (if old(self)@.dynamic.contains_key(ssa_var) {
                old(self)@.dynamic
            } else {
                old(self)@.dynamic.insert(ssa_var, false)
            }),
            old(self)@.scopes.len() == 0 ==> final(self)@.scopes == old(self)@.scopes,
            old(self)@.scopes.len() > 0 ==> {
                &&& final(self)@.scopes.len() == old(self)@.scopes.len()
                &&& final(self)@.scopes.drop_last() == old(self)@.scopes.drop_last()
                &&& scope_put(old(self)@.scopes.last(), final(self)@.scopes.last(), name@, (ssa_var, typ, is_observation))
            },
            final(self)@ == (BuilderModel {
                types: final(self)@.types,
                dynamic: final(self)@.dynamic,
                scopes: final(self)@.scopes,
                ..old(self)@
            }),
    {
        self.ssa_types.insert(ssa_var, typ.dup());
        if self.ssa_is_dynamic.get(ssa_var).is_none() {
            self.ssa_is_dynamic.insert(ssa_var, false);
        } else {
            proof { assert(self.ssa_is_dynamic@.insert(ssa_var, self.ssa_is_dynamic@[ssa_var]) =~= self.ssa_is_dynamic@); }
        }
        let n = self.scopes.len();
        if n > 0 {
            let ghost before = self.scopes@;
            let mut scope: Vec<(String, Binding)> = Vec::new();
            std::mem::swap(&mut scope, &mut self.scopes[n - 1]);
            let ghost s0 = scope@;
            put_entry(&mut scope, name, (ssa_var, typ, is_observation));
            self.scopes.set(n - 1, scope);
            proof {
                let m = |s: Vec<(String, Binding)>| s@;
                assert(self@.scopes.drop_last() =~= old(self)@.scopes.drop_last()) by {
                    assert forall|k: int| 0 <= k < n - 1 implies self@.scopes[k] == old(self)@.scopes[k] by {
                        assert(self.scopes@[k] == before[k]);
                    }
                }
                assert(s0 == old(self)@.scopes.last());
            }
        }
    }

    /// The type recorded for an SSA variable, if any (a copy).
    pub fn resolve_ssa_type(&self, ssa_var: usize) -> (r: Option<OnuType>)
        requires
            self.wf(),
        ensures
            r is Some <==> self@.types.contains_key(ssa_var),
            r matches Some(t) ==> ty_equiv(t, self@.types[ssa_var]),
    {
        match self.ssa_types.get(ssa_var) {
            Some(t) => Some(t.dup()),
            None => None,
        }
    }

    /// Records the type of an SSA variable.
    pub fn set_ssa_type(&mut self, ssa_var: usize, typ: OnuType)
        requires
            old(self).wf(),
        ensures
            final(self).wf(),
            final(self)@ == (BuilderModel { types: old(self)@.types.insert(ssa_var, typ), ..old(self)@ }),
    {
        self.ssa_types.insert(ssa_var, typ);
    }

    /// Records whether an SSA variable holds dynamically allocated memory.
    pub fn set_ssa_is_dynamic(&mut self, ssa_var: usize, is_dynamic: bool)
        requires
            old(self).wf(),
        ensures
            final(self).wf(),
            final(self)@ == (BuilderModel { dynamic: old(self)@.dynamic.insert(ssa_var, is_dynamic), ..old(self)@ }),
    {
        self.ssa_is_dynamic.insert(ssa_var, is_dynamic);
    }

    /// Whether an SSA variable is recorded as dynamic (`false` when nothing
    /// is recorded).
    pub fn resolve_ssa_is_dynamic(&self, ssa_var: usize) -> (r: bool)
        requires
            self.wf(),
        ensures
            r == (self@.dynamic.contains_key(ssa_var) && self@.dynamic[ssa_var]),
    {
        match self.ssa_is_dynamic.get(ssa_var) {
            Some(d) => *d,
            None => false,
        }
    }

    /// Finds the innermost scope binding `name`; returns its position and the
    /// entry's position in it.
    fn find_binding(&self, name: &str) -> (r: Option<(usize, usize)>)
        requires
            self.wf(),
        ensures
            match r {
                Some((k, j)) => k < self.scopes@.len() && j < self.scopes@[k as int]@.len()
                    && innermost_binding(self@.scopes, name@) == Some(self.scopes@[k as int]@[j as int].1),
                None => innermost_binding(self@.scopes, name@) is None,
            },
    {
        let ghost full = self@.scopes;
        let mut i: usize = self.scopes.len();
        proof { assert(full.subrange(0, i as int) =~= full); }
        while i > 0
            invariant
                full == self@.scopes,
                i <= full.len(),
                full.len() == self.scopes@.len(),
                innermost_binding(full, name@) == innermost_binding(full.subrange(0, i as int), name@),
            decreases i,
        {
            let ghost sub = full.subrange(0, i as int);
            assert(sub.drop_last() =~= full.subrange(0, i as int - 1));
            assert(sub.last() == self.scopes@[i - 1]@);
            match find_entry(&self.scopes[i - 1], name) {
                Some(j) => {
                    proof {
                        assert(entry_names(sub.last()) == entry_names(self.scopes@[i - 1]@));
                    }
                    return Some((i - 1, j));
                }
                None => {}
            }
            i = i - 1;
        }
        None
    }

    /// The SSA variable of the innermost binding of `name`, unless that
    /// variable has been consumed.
    pub fn resolve_variable(&self, name: &str) -> (r: Option<usize>)
        requires
            self.wf(),
        ensures
            r == (match innermost_binding(self@.scopes, name@) {
                Some(b) => if self@.consumed.contains(b.0) { None } else { Some(b.0) },
                None => None,
            }),
    {
        match self.find_binding(name) {
            Some((k, j)) => {
                let id = self.scopes[k][j].1.0;
                if self.consumed_vars.contains(&id) {
                    None
                } else {
                    Some(id)
                }
            }
            None => None,
        }
    }

    /// The type of the innermost binding of `name` (a copy), unless its
    /// variable has been consumed.
    pub fn resolve_variable_type(&self, name: &str) -> (r: Option<OnuType>)
        requires
            self.wf(),
        ensures
            match innermost_binding(self@.scopes, name@) {
                Some(b) => if self@.consumed.contains(b.0) {
                    r is None
                } else {
                    r matches Some(t) && ty_equiv(t, b.1)
                },
                None => r is None,
            },
    {
        match self.find_binding(name) {
            Some((k, j)) => {
                let entry = &self.scopes[k][j].1;
                if self.consumed_vars.contains(&entry.0) {
                    None
                } else {
                    Some(entry.1.dup())
                }
            }
            None => None,
        }
    }

    /// Whether the innermost binding of `name` is an observation (`false`
    /// when `name` is not bound).
    pub fn resolve_variable_is_observation(&self, name: &str) -> (r: bool)
        requires
            self.wf(),
        ensures
            r == (innermost_binding(self@.scopes, name@) matches Some(b) && b.2),
    {
        match self.find_binding(name) {
            Some((k, j)) => self.scopes[k][j].1.2,
            None => false,
        }
    }

    /// The variables of the innermost scope that are not consumed, with
    /// their types, in the order they were first bound.
    pub fn get_current_scope_variables(&self) -> (r: Vec<(usize, OnuType)>)
        requires
            self.wf(),
        ensures
            self@.scopes.len() == 0 ==> r@.len() == 0,
            self@.scopes.len() > 0 ==> {
                let live = live_bindings(self@.scopes.last(), self@.consumed);
                &&& r@.len() == live.len()
                &&& forall|i: int| 0 <= i < live.len() ==> (#[trigger] r@[i]).0 == live[i].0 && ty_equiv(r@[i].1, live[i].1)
            },
    {
        let mut out: Vec<(usize, OnuType)> = Vec::new();
        let n = self.scopes.len();
        if n == 0 {
            return out;
        }
        let scope = &self.scopes[n - 1];
        let ghost sc = scope@;
        let ghost consumed = self@.consumed;
        proof { assert(sc == self@.scopes.last()); }
        let mut i: usize = 0;
        while i < scope.len()
            invariant
                sc == scope@,
                consumed == self@.consumed,
                self.wf(),
                i <= sc.len(),
                out@.len() == live_bindings(sc.subrange(0, i as int), consumed).len(),
                forall|k: int| 0 <= k < out@.len() ==> (#[trigger] out@[k]).0 == live_bindings(sc.subrange(0, i as int), consumed)[k].0
                    && ty_equiv(out@[k].1, live_bindings(sc.subrange(0, i as int), consumed)[k].1),
            decreases sc.len() - i,
        {
            assert(sc.subrange(0, i as int + 1).drop_last() =~= sc.subrange(0, i as int));
            let b = &scope[i].1;
            if !self.consumed_vars.contains(&b.0) {
                out.push((b.0, b.1.dup()));
            }
            i = i + 1;
        }
        assert(sc.subrange(0, i as int) =~= sc);
        out
    }

    /// Marks an SSA variable as consumed (moved).
    pub fn mark_consumed(&mut self, ssa_var: usize)
        requires
            old(self).wf(),
        ensures
            final(self).wf(),
            final(self)@ == (BuilderModel { consumed: old(self)@.consumed.insert(ssa_var), ..old(self)@ }),
    {
        self.consumed_vars.insert(ssa_var);
    }

    /// The consumed SSA variables (a copy of the set).
    pub fn get_consumed_vars(&self) -> (r: HashSet<usize>)
        requires
            self.wf(),
        ensures
            r@ == self@.consumed,
    {
        clone_set(&self.consumed_vars)
    }

    /// Whether an SSA variable has been consumed.
    pub fn is_consumed(&self, ssa_var: usize) -> (r: bool)
        requires
            self.wf(),
        ensures
            r == self@.consumed.contains(ssa_var),
    {
        self.consumed_vars.contains(&ssa_var)
    }

    /// Replaces the set of consumed variables (as saved by
    /// `get_consumed_vars` before a branch).
    pub fn set_consumed_vars(&mut self, consumed: HashSet<usize>)
        requires
            old(self).wf(),
        ensures
            final(self).wf(),
            final(self)@ == (BuilderModel { consumed: consumed@, ..old(self)@ }),
    {
        self.consumed_vars = consumed;
    }

    /// Schedules `ssa_var`, of type `typ`, to be dropped when what is left
    /// is released (see `take_pending_drops`).
    pub fn schedule_drop(&mut self, ssa_var: usize, typ: OnuType)
        requires
            old(self).wf(),
        ensures
            final(self).wf(),
            final(self)@ == (BuilderModel { pending: old(self)@.pending.push((ssa_var, typ)), ..old(self)@ }),
    {
        self.pending_drops.push((ssa_var, typ));
    }

    /// Takes the scheduled drops that are still owed: each scheduled
    /// variable not consumed by now, once, in the order first scheduled, with
    /// its type, a name (`drop_` and its number) and whether it is dynamic.
    /// Nothing stays scheduled.
    pub fn take_pending_drops(&mut self) -> (r: Vec<(usize, OnuType, String, bool)>)
        requires
            old(self).wf(),
        ensures
            final(self).wf(),
            final(self)@ == (BuilderModel { pending: Seq::empty(), ..old(self)@ }),
            drops_listed(r@, owed(old(self)@.pending, old(self)@.consumed), old(self)@.dynamic),
    {
        let mut taken: Vec<(usize, OnuType)> = Vec::new();
        std::mem::swap(&mut taken, &mut self.pending_drops);
        let ghost p = taken@;
        let mut out: Vec<(usize, OnuType, String, bool)> = Vec::new();
        let ghost mut done: Seq<(usize, OnuType)> = Seq::empty();
        let mut i: usize = 0;
        proof {
            assert(p.subrange(0, 0) =~= Seq::<(usize, OnuType)>::empty());
        }
        while i < taken.len()
            invariant
                self.wf(),
                self@ == (BuilderModel { pending: Seq::empty(), ..old(self)@ }),
                p == taken@,
                p == old(self)@.pending,
                i <= p.len(),
                done == owed(p.subrange(0, i as int), old(self)@.consumed),
                drops_listed(out@, done, old(self)@.dynamic),
            decreases p.len() - i,
        {
            let id = taken[i].0;
            proof {
                assert(p.subrange(0, i as int + 1).drop_last() =~= p.subrange(0, i as int));
                assert(p.subrange(0, i as int + 1).last() == p[i as int]);
                assert forall|k: int| 0 <= k < out@.len() implies out@[k].0 == done[k].0 by {
                    assert(drop_entry(out@[k], done[k], old(self)@.dynamic));
                }
                if exists|k: int| 0 <= k < out@.len() && #[trigger] out@[k].0 == id {
                    let k = choose|k: int| 0 <= k < out@.len() && #[trigger] out@[k].0 == id;
                    assert(done[k].0 == id);
                }
                if exists|k: int| 0 <= k < done.len() && #[trigger] done[k].0 == id {
                    let k = choose|k: int| 0 <= k < done.len() && #[trigger] done[k].0 == id;
                    assert(out@[k].0 == id);
                }
            }
            if !self.consumed_vars.contains(&id) && !listed(&out, id) {
                let t = taken[i].1.dup();
                let name = crate::text::concat2("drop_", crate::text::count_text(id).as_str());
                let d = self.resolve_ssa_is_dynamic(id);
                let ghost before = out@;
                out.push((id, t, name, d));
                proof {
                    done = done.push(p[i as int]);
                    assert forall|k: int| 0 <= k < out@.len() implies #[trigger] drop_entry(out@[k], done[k], old(self)@.dynamic) by {
                        if k < before.len() {
                            assert(out@[k] == before[k]);
                        }
                    }
                }
            }
            i = i + 1;
        }
        assert(p.subrange(0, i as int) =~= p);
        out
    }

    /// Opens a new innermost scope.
    pub fn enter_scope(&mut self)
        requires
            old(self).wf(),
        ensures
            final(self).wf(),
            final(self)@ == (BuilderModel { scopes: old(self)@.scopes.push(Seq::empty()), ..old(self)@ }),
    {
        self.scopes.push(Vec::new());
        proof { assert(self@.scopes =~= old(self)@.scopes.push(Seq::empty())); }
    }

    /// Closes the innermost scope, if there is one.
    pub fn exit_scope(&mut self)
        requires
            old(self).wf(),
        ensures
            final(self).wf(),
            final(self)@ == (BuilderModel {
                scopes: if old(self)@.scopes.len() > 0 { old(self)@.scopes.drop_last() } else { old(self)@.scopes },
                ..old(self)@
            }),
    {
        let _ = self.scopes.pop();
        proof {
            if old(self)@.scopes.len() > 0 {
                assert(self@.scopes =~= old(self)@.scopes.drop_last());
            }
        }
    }

    /// Appends a new empty block, with `Unreachable` as its terminator, and
    /// returns its id (its position).
    pub fn create_block(&mut self) -> (id: usize)
        requires
            old(self).wf(),
        ensures
            final(self).wf(),
            id == old(self)@.blocks.len(),
            final(self)@.blocks.len() == old(self)@.blocks.len() + 1,
            final(self)@.blocks.drop_last() == old(self)@.blocks,
            final(self)@.blocks.last().id == id,
            final(self)@.blocks.last().instructions@.len() == 0,
            final(self)@.blocks.last().terminator == MirTerminator::Unreachable,
            final(self)@ == (BuilderModel { blocks: final(self)@.blocks, ..old(self)@ }),
    {
        let id = self.blocks.len();
        self.blocks.push(BasicBlock { id, instructions: Vec::new(), terminator: MirTerminator::Unreachable });
        assert(self.blocks@.drop_last() =~= old(self).blocks@);
        id
    }

    /// Makes the block `id` current, if it exists.
    pub fn switch_to_block(&mut self, id: usize)
        requires
            old(self).wf(),
        ensures
            final(self).wf(),
            final(self)@ == (BuilderModel {
                current: if id < old(self)@.blocks.len() { Some(id) } else { old(self)@.current },
                ..old(self)@
            }),
    {
        if id < self.blocks.len() {
            self.current_block_idx = Some(id);
        }
    }

    /// Leaves no block current: what is emitted next is dropped (code after
    /// a return).
    pub fn clear_current_block(&mut self)
        requires
            old(self).wf(),
        ensures
            final(self).wf(),
            final(self)@ == (BuilderModel { current: None, ..old(self)@ }),
    {
        self.current_block_idx = None;
    }

    /// Appends an instruction to the current block; with no current block it
    /// is dropped.
    pub fn emit(&mut self, inst: MirInstruction)
        requires
            old(self).wf(),
        ensures
            final(self).wf(),
            emitted(old(self)@, final(self)@, inst),
    {
        if let Some(idx) = self.current_block_idx {
            let mut block = BasicBlock { id: 0, instructions: Vec::new(), terminator: MirTerminator::Unreachable };
            std::mem::swap(&mut block, &mut self.blocks[idx]);
            block.instructions.push(inst);
            self.blocks.set(idx, block);
        }
    }

    /// Emits `dest = subject[index]`.
    pub fn build_index(&mut self, dest: usize, subject: MirOperand, index: usize)
        requires
            old(self).wf(),
        ensures
            final(self).wf(),
            emitted(old(self)@, final(self)@, MirInstruction::Index { dest, subject, index }),
    {
        self.emit(MirInstruction::Index { dest, subject, index });
    }

    /// Emits an allocation of `size_bytes` bytes into `dest`.
    pub fn build_alloc(&mut self, dest: usize, size_bytes: MirOperand)
        requires
            old(self).wf(),
        ensures
            final(self).wf(),
            emitted(old(self)@, final(self)@, MirInstruction::Alloc { dest, size_bytes }),
    {
        self.emit(MirInstruction::Alloc { dest, size_bytes });
    }

    /// Emits a copy of `size` bytes from `src` to `dest`.
    pub fn build_memcpy(&mut self, dest: MirOperand, src: MirOperand, size: MirOperand)
        requires
            old(self).wf(),
        ensures
            final(self).wf(),
            emitted(old(self)@, final(self)@, MirInstruction::MemCopy { dest, src, size }),
    {
        self.emit(MirInstruction::MemCopy { dest, src, size });
    }

    /// Emits `dest = ptr + offset`.
    pub fn build_pointer_offset(&mut self, dest: usize, ptr: MirOperand, offset: MirOperand)
        requires
            old(self).wf(),
        ensures
            final(self).wf(),
            emitted(old(self)@, final(self)@, MirInstruction::PointerOffset { dest, ptr, offset }),
    {
        self.emit(MirInstruction::PointerOffset { dest, ptr, offset });
    }

    /// Emits a store of `value` through `ptr`.
    pub fn build_store(&mut self, ptr: MirOperand, value: MirOperand)
        requires
            old(self).wf(),
        ensures
            final(self).wf(),
            emitted(old(self)@, final(self)@, MirInstruction::Store { ptr, value }),
    {
        self.emit(MirInstruction::Store { ptr, value });
    }

    /// Emits the string tuple `(len, ptr, is_dynamic)` into `dest` and
    /// records whether `dest` is dynamic.
    pub fn build_string_tuple(&mut self, dest: usize, len: MirOperand, ptr: MirOperand, is_dynamic: bool)
        requires
            old(self).wf(),
        ensures
            final(self).wf(),
            final(self)@.dynamic == old(self)@.dynamic.insert(dest, is_dynamic),
            match old(self)@.current {
                Some(i) => {
                    &&& final(self)@.blocks.len() == old(self)@.blocks.len()
                    &&& forall|j: int| 0 <= j < old(self)@.blocks.len() && j != i ==> final(self)@.blocks[j] == old(self)@.blocks[j]
                    &&& final(self)@.blocks[i as int].id == old(self)@.blocks[i as int].id
                    &&& final(self)@.blocks[i as int].terminator == old(self)@.blocks[i as int].terminator
                    &&& final(self)@.blocks[i as int].instructions@.drop_last() == old(self)@.blocks[i as int].instructions@
                    &&& final(self)@.blocks[i as int].instructions@.len() == old(self)@.blocks[i as int].instructions@.len() + 1
                    &&& final(self)@.blocks[i as int].instructions@.last() matches MirInstruction::Tuple { dest: d, elements }
                        && d == dest
                        && elements@ == seq![len, ptr, MirOperand::Constant(MirLiteral::Boolean(is_dynamic))]
                },
                None => final(self)@.blocks == old(self)@.blocks,
            },
            final(self)@ == (BuilderModel { blocks: final(self)@.blocks, dynamic: final(self)@.dynamic, ..old(self)@ }),
    {
        self.set_ssa_is_dynamic(dest, is_dynamic);
        let elements = vec![len, ptr, MirOperand::Constant(MirLiteral::Boolean(is_dynamic))];
        let ghost e = elements;
        self.emit(MirInstruction::Tuple { dest, elements });
        proof {
            if let Some(i) = old(self)@.current {
                assert(self@.blocks[i as int].instructions@.drop_last() =~= old(self)@.blocks[i as int].instructions@);
                assert(e@ =~= seq![len, ptr, MirOperand::Constant(MirLiteral::Boolean(is_dynamic))]);
            }
        }
    }

    /// Emits `dest = lhs op rhs`, with a result of type `dest_type`.
    pub fn build_binop(&mut self, dest: usize, op: MirBinOp, lhs: MirOperand, rhs: MirOperand, dest_type: OnuType)
        requires
            old(self).wf(),
        ensures
            final(self).wf(),
            emitted(old(self)@, final(self)@, MirInstruction::BinaryOperation { dest, op, lhs, rhs, dest_type }),
    {
        self.emit(MirInstruction::BinaryOperation { dest, op, lhs, rhs, dest_type });
    }

    /// Emits `dest = src`.
    pub fn build_assign(&mut self, dest: usize, src: MirOperand)
        requires
            old(self).wf(),
        ensures
            final(self).wf(),
            emitted(old(self)@, final(self)@, MirInstruction::Assign { dest, src }),
    {
        self.emit(MirInstruction::Assign { dest, src });
    }

    /// Sets the terminator of the current block, if there is one.
    pub fn terminate(&mut self, term: MirTerminator)
        requires
            old(self).wf(),
        ensures
            final(self).wf(),
            match old(self)@.current {
                Some(i) => {
                    &&& final(self)@.blocks.len() == old(self)@.blocks.len()
                    &&& forall|j: int| 0 <= j < old(self)@.blocks.len() && j != i ==> final(self)@.blocks[j] == old(self)@.blocks[j]
                    &&& final(self)@.blocks[i as int].id == old(self)@.blocks[i as int].id
                    &&& final(self)@.blocks[i as int].instructions == old(self)@.blocks[i as int].instructions
                    &&& final(self)@.blocks[i as int].terminator == term
                },
                None => final(self)@.blocks == old(self)@.blocks,
            },
            final(self)@ == (BuilderModel { blocks: final(self)@.blocks, ..old(self)@ }),
    {
        if let Some(idx) = self.current_block_idx {
            let mut block = BasicBlock { id: 0, instructions: Vec::new(), terminator: MirTerminator::Unreachable };
            std::mem::swap(&mut block, &mut self.blocks[idx]);
            block.terminator = term;
            self.blocks.set(idx, block);
        }
    }

    /// The id of the current block, if there is one.
    pub fn get_current_block_id(&self) -> (r: Option<usize>)
        requires
            self.wf(),
        ensures
            r == self@.current,
    {
        match self.current_block_idx {
            Some(idx) => Some(self.blocks[idx].id),
            None => None,
        }
    }

    /// The function built: its name, parameters, return type and blocks; it
    /// is not marked pure, has no diminishing arguments and no memo cache.
    pub fn build(self) -> (f: MirFunction)
        requires
            self.wf(),
        ensures
            forall|j: int| 0 <= j < f.blocks@.len() ==> (#[trigger] f.blocks@[j]).id == j,
            f.name@ == self@.name,
            f.args@ == self@.args,
            f.return_type == self@.return_type,
            f.blocks@ == self@.blocks,
            !f.is_pure_data_leaf,
            f.diminishing@.len() == 0,
            f.memo_cache_size is None,
    {
        MirFunction {
            name: self.name,
            args: self.args,
            return_type: self.return_type,
            blocks: self.blocks,
            is_pure_data_leaf: false,
            diminishing: Vec::new(),
            memo_cache_size: None,
        }
    }
}

/// A variable just defined is what its name resolves to: after
/// `define_variable(name, ssa, typ, obs)` on a builder with a scope, the
/// innermost binding of `name` is `(ssa, typ, obs)`, and every other name
/// keeps its binding.
pub proof fn lemma_define_then_resolve(
    before: Seq<Seq<(String, Binding)>>,
    after: Seq<Seq<(String, Binding)>>,
    name: Seq<char>,
    b: Binding,
    other: Seq<char>,
)
    requires
        before.len() > 0,
        after.len() == before.len(),
        after.drop_last() == before.drop_last(),
        scope_put(before.last(), after.last(), name, b),
    ensures
        innermost_binding(after, name) == Some(b),
        other != name ==> innermost_binding(after, other) == innermost_binding(before, other),
{
    crate::registry::lemma_put_entry_lookup(before.last(), after.last(), name, b, name);
    crate::registry::lemma_put_entry_lookup(before.last(), after.last(), name, b, other);
    if other != name {
        match first_index_of(entry_names(after.last()), other) {
            Some(j) => {}
            None => {}
        }
    }
}

/// The type recorded last for `v` among `writes`, if any.
pub open spec fn last_write(writes: Seq<(usize, OnuType)>, v: usize) -> Option<OnuType>
    decreases writes.len(),
{
    if writes.len() == 0 {
        None
    } else if writes.last().0 == v {
        Some(writes.last().1)
    } else {
        last_write(writes.drop_last(), v)
    }
}

/// Recording a type by `set_ssa_type` (a plain insertion) is a recording in
/// the sense of `types_put`.
pub proof fn lemma_insert_records(before: Map<usize, OnuType>, k: usize, t: OnuType)
    ensures
        types_put(before, before.insert(k, t), k, t),
{
    crate::types::lemma_ty_equiv_refl(t);
    assert(before.insert(k, t).dom() =~= before.dom().insert(k));
}

/// The type an SSA variable resolves to is the one recorded last for it:
/// after any sequence of recordings (`set_ssa_type`, `add_arg`,
/// `define_variable`) taking the type map through `ts`, a type that is the
/// same as the one stored for `v` (as `resolve_ssa_type` returns) is the same
/// as the last type recorded for `v`; a variable recorded by none of them
/// keeps what it had (none, on a new builder).
pub proof fn law_last_recorded_type(ts: Seq<Map<usize, OnuType>>, writes: Seq<(usize, OnuType)>, v: usize, resolved: OnuType)
    requires
        ts.len() == writes.len() + 1,
        forall|i: int| 0 <= i < writes.len() ==> #[trigger] types_put(ts[i], ts[i + 1], writes[i].0, writes[i].1),
    ensures
        match last_write(writes, v) {
            Some(t) => ts.last().contains_key(v) && (ty_equiv(resolved, ts.last()[v]) ==> ty_equiv(resolved, t)),
            None => ts.last().contains_key(v) == ts[0].contains_key(v) && (ts[0].contains_key(v) ==> ts.last()[v] == ts[0][v]),
        },
    decreases writes.len(),
{
    if writes.len() > 0 {
        let n = writes.len() - 1;
        let ts1 = ts.drop_last();
        let w1 = writes.drop_last();
        assert forall|i: int| 0 <= i < w1.len() implies #[trigger] types_put(ts1[i], ts1[i + 1], w1[i].0, w1[i].1) by {
            assert(types_put(ts[i], ts[i + 1], writes[i].0, writes[i].1));
        }
        law_last_recorded_type(ts1, w1, v, resolved);
        assert(types_put(ts[n], ts[n + 1], writes[n].0, writes[n].1));
        assert(ts1.last() == ts[n]);
        if writes[n].0 == v {
            if ty_equiv(resolved, ts.last()[v]) {
                crate::types::lemma_ty_equiv_trans(resolved, ts.last()[v], writes[n].1);
            }
        } else {
            assert(ts.last().dom().contains(v) == ts[n].dom().contains(v));
        }
    }
}

/// The builder after `new_ssa`: the counter moved on by one, nothing else
/// changed.
pub open spec fn ssa_step(m: BuilderModel) -> BuilderModel {
    BuilderModel { next_ssa: (m.next_ssa + 1) as usize, ..m }
}

/// The builder after `n` calls of `new_ssa`.
pub open spec fn ssa_steps(m: BuilderModel, n: nat) -> BuilderModel
    decreases n,
{
    if n == 0 {
        m
    } else {
        ssa_step(ssa_steps(m, (n - 1) as nat))
    }
}

/// Fresh ids are fresh: the `i`-th of `n` successive calls of `new_ssa`
/// returns the counter plus `i` (so the first call on a new builder returns
/// 0 and each next call one more), and no two of the calls return the same
/// id; nothing but the counter changes.
pub proof fn law_new_ssa_fresh(m: BuilderModel, n: nat)
    requires
        m.next_ssa + n <= usize::MAX,
    ensures
        forall|i: nat| i <= n ==> #[trigger] ssa_steps(m, i).next_ssa == m.next_ssa + i,
        forall|i: nat, j: nat| i < j <= n ==> #[trigger] ssa_steps(m, i).next_ssa != #[trigger] ssa_steps(m, j).next_ssa,
        forall|i: nat| i <= n ==> #[trigger] ssa_steps(m, i) == (BuilderModel { next_ssa: (m.next_ssa + i) as usize, ..m }),
    decreases n,
{
    if n > 0 {
        law_new_ssa_fresh(m, (n - 1) as nat);
        assert forall|i: nat| i <= n implies #[trigger] ssa_steps(m, i) == (BuilderModel { next_ssa: (m.next_ssa + i) as usize, ..m }) by {
            if i == n {
                assert(ssa_steps(m, (n - 1) as nat) == (BuilderModel { next_ssa: (m.next_ssa + n - 1) as usize, ..m }));
            }
        }
    }
}

/// A scope restores what it shadows: `before` is the scope stack when
/// `enter_scope` is called, `during[0]` the stack it leaves, each next
/// element the stack after a `define_variable` (which changes the innermost
/// scope only), and `after` the stack `exit_scope` leaves. Then `after` is
/// `before`, so every name resolves after the scope as it did before it.
pub proof fn law_scope_round_trip(
    before: Seq<Seq<(String, Binding)>>,
    during: Seq<Seq<Seq<(String, Binding)>>>,
    after: Seq<Seq<(String, Binding)>>,
    name: Seq<char>,
)
    requires
        during.len() >= 1,
        during[0] == before.push(Seq::empty()),
        forall|i: int| 0 < i < during.len() ==> (#[trigger] during[i]).len() == during[i - 1].len()
            && during[i].drop_last() == during[i - 1].drop_last(),
        after == during.last().drop_last(),
    ensures
        after == before,
        innermost_binding(after, name) == innermost_binding(before, name),
{
    assert forall|i: int| 0 <= i < during.len() implies (#[trigger] during[i]).len() == before.len() + 1
        && during[i].drop_last() == before by {
        lemma_scope_prefix(before, during, i);
    }
    assert(during[during.len() - 1].drop_last() == before);
}

proof fn lemma_scope_prefix(
    before: Seq<Seq<(String, Binding)>>,
    during: Seq<Seq<Seq<(String, Binding)>>>,
    i: int,
)
    requires
        0 <= i < during.len(),
        during[0] == before.push(Seq::empty()),
        forall|k: int| 0 < k < during.len() ==> (#[trigger] during[k]).len() == during[k - 1].len()
            && during[k].drop_last() == during[k - 1].drop_last(),
    ensures
        during[i].len() == before.len() + 1,
        during[i].drop_last() == before,
    decreases i,
{
    if i == 0 {
        assert(before.push(Seq::empty()).drop_last() =~= before);
    } else {
        lemma_scope_prefix(before, during, i - 1);
        assert(during[i].len() == during[i - 1].len());
    }
}

/// One call on a builder, as far as the function it builds is concerned:
/// `add_arg`, `create_block`, `switch_to_block`, `emit` (or one of the
/// `build_*` methods that emit one instruction), `terminate`.
pub enum BuildStep {
    Arg(MirArgument),
    NewBlock,
    SwitchTo(usize),
    Emit(MirInstruction),
    Terminate(MirTerminator),
}

/// What a step does to the parts of a builder that `build` returns (name,
/// return type, arguments, blocks) and to which block is current, as the
/// contract of its method states it.
pub open spec fn step_done(m: BuilderModel, st: BuildStep, m2: BuilderModel) -> bool {
    &&& m2.name == m.name
    &&& m2.return_type == m.return_type
    &&& match st {
        BuildStep::Arg(a) => m2.args == m.args.push(a) && m2.blocks == m.blocks && m2.current == m.current,
        BuildStep::NewBlock => {
            &&& m2.args == m.args
            &&& m2.current == m.current
            &&& m2.blocks.len() == m.blocks.len() + 1
            &&& m2.blocks.drop_last() == m.blocks
            &&& m2.blocks.last().id == m.blocks.len()
            &&& m2.blocks.last().instructions@.len() == 0
            &&& m2.blocks.last().terminator == MirTerminator::Unreachable
        },
        BuildStep::SwitchTo(id) => m2.args == m.args && m2.blocks == m.blocks
            && m2.current == (if id < m.blocks.len() { Some(id) } else { m.current }),
        BuildStep::Emit(inst) => m2.args == m.args && m2.current == m.current && emitted(m, m2, inst),
        BuildStep::Terminate(t) => {
            &&& m2.args == m.args
            &&& m2.current == m.current
            &&& match m.current {
                Some(i) => {
                    &&& m2.blocks.len() == m.blocks.len()
                    &&& forall|j: int| 0 <= j < m.blocks.len() && j != i ==> m2.blocks[j] == m.blocks[j]
                    &&& m2.blocks[i as int].id == m.blocks[i as int].id
                    &&& m2.blocks[i as int].instructions == m.blocks[i as int].instructions
                    &&& m2.blocks[i as int].terminator == t
                },
                None => m2.blocks == m.blocks,
            }
        },
    }
}

/// The contents of a block: its instructions and its terminator.
pub struct BlockShape {
    pub insts: Seq<MirInstruction>,
    pub term: MirTerminator,
}

/// The arguments, the blocks and the current block after a sequence of
/// steps on a new builder: arguments in the order added; one block per
/// `create_block` after the entry block, in creation order; each block
/// with the instructions emitted while it was current, in order, and the
/// last terminator set while it was current (`Unreachable` if none).
pub open spec fn replay(steps: Seq<BuildStep>) -> (Seq<MirArgument>, Seq<BlockShape>, Option<usize>)
    decreases steps.len(),
{
    if steps.len() == 0 {
        (Seq::empty(), seq![BlockShape { insts: Seq::empty(), term: MirTerminator::Unreachable }], Some(0usize))
    } else {
        let (args, bs, cur) = replay(steps.drop_last());
        match steps.last() {
            BuildStep::Arg(a) => (args.push(a), bs, cur),
            BuildStep::NewBlock => (args, bs.push(BlockShape { insts: Seq::empty(), term: MirTerminator::Unreachable }), cur),
            BuildStep::SwitchTo(id) => (args, bs, if id < bs.len() { Some(id) } else { cur }),
            BuildStep::Emit(inst) => (args, match cur {
                Some(i) => bs.update(i as int, BlockShape { insts: bs[i as int].insts.push(inst), term: bs[i as int].term }),
                None => bs,
            }, cur),
            BuildStep::Terminate(t) => (args, match cur {
                Some(i) => bs.update(i as int, BlockShape { insts: bs[i as int].insts, term: t }),
                None => bs,
            }, cur),
        }
    }
}

/// The builder's state `m` holds what `replay` gives.
pub open spec fn holds_replay(m: BuilderModel, steps: Seq<BuildStep>) -> bool {
    let (args, bs, cur) = replay(steps);
    &&& m.args == args
    &&& m.current == cur
    &&& (cur matches Some(i) ==> i < bs.len())
    &&& m.blocks.len() == bs.len()
    &&& forall|j: int| 0 <= j < bs.len() ==> (#[trigger] m.blocks[j]).id == j
        && m.blocks[j].instructions@ == bs[j].insts && m.blocks[j].terminator == bs[j].term
}

/// What `build` returns after a sequence of calls on a new builder: the
/// builder's name and return type, the arguments in the order they were
/// added, and the blocks in creation order, block `i` numbered `i`, each
/// holding exactly the instructions emitted while it was current, in order,
/// and the last terminator set while it was current (`Unreachable` if
/// none). `ms` are the builder's states, `ms[0]` as `new` leaves it.
pub proof fn law_build_replays(ms: Seq<BuilderModel>, steps: Seq<BuildStep>)
    requires
        ms.len() == steps.len() + 1,
        ms[0].args.len() == 0,
        ms[0].blocks.len() == 1,
        ms[0].blocks[0].id == 0,
        ms[0].blocks[0].instructions@.len() == 0,
        ms[0].blocks[0].terminator == MirTerminator::Unreachable,
        ms[0].current == Some(0usize),
        forall|i: int| 0 <= i < steps.len() ==> step_done(#[trigger] ms[i], steps[i], ms[i + 1]),
    ensures
        ms.last().name == ms[0].name,
        ms.last().return_type == ms[0].return_type,
        holds_replay(ms.last(), steps),
    decreases steps.len(),
{
    if steps.len() == 0 {
        assert(ms[0].args =~= Seq::<MirArgument>::empty());
        assert(ms[0].blocks[0].instructions@ =~= Seq::<MirInstruction>::empty());
    } else {
        let n = steps.len() - 1;
        let ms1 = ms.drop_last();
        let st1 = steps.drop_last();
        assert forall|i: int| 0 <= i < st1.len() implies step_done(#[trigger] ms1[i], st1[i], ms1[i + 1]) by {
            assert(step_done(ms[i], steps[i], ms[i + 1]));
        }
        law_build_replays(ms1, st1);
        let m = ms[n];
        let m2 = ms[n + 1];
        assert(ms1.last() == m);
        assert(step_done(m, steps[n], m2));
        let (args, bs, cur) = replay(st1);
        match steps[n] {
            BuildStep::Arg(a) => {},
            BuildStep::NewBlock => {
                let bs2 = bs.push(BlockShape { insts: Seq::empty(), term: MirTerminator::Unreachable });
                assert forall|j: int| 0 <= j < bs2.len() implies (#[trigger] m2.blocks[j]).id == j
                    && m2.blocks[j].instructions@ == bs2[j].insts && m2.blocks[j].terminator == bs2[j].term by {
                    if j < bs.len() {
                        assert(m2.blocks[j] == m2.blocks.drop_last()[j]);
                    } else {
                        assert(m2.blocks[j] == m2.blocks.last());
                        assert(m2.blocks[j].instructions@ =~= Seq::<MirInstruction>::empty());
                    }
                }
            },
            BuildStep::SwitchTo(id) => {},
            BuildStep::Emit(inst) => {
                match cur {
                    Some(i) => {
                        let bs2 = bs.update(i as int, BlockShape { insts: bs[i as int].insts.push(inst), term: bs[i as int].term });
                        assert forall|j: int| 0 <= j < bs2.len() implies (#[trigger] m2.blocks[j]).id == j
                            && m2.blocks[j].instructions@ == bs2[j].insts && m2.blocks[j].terminator == bs2[j].term by {
                            if j != i {
                                assert(m2.blocks[j] == m.blocks[j]);
                            }
                        }
                    },
                    None => {},
                }
            },
            BuildStep::Terminate(t) => {
                match cur {
                    Some(i) => {
                        let bs2 = bs.update(i as int, BlockShape { insts: bs[i as int].insts, term: t });
                        assert forall|j: int| 0 <= j < bs2.len() implies (#[trigger] m2.blocks[j]).id == j
                            && m2.blocks[j].instructions@ == bs2[j].insts && m2.blocks[j].terminator == bs2[j].term by {
                            if j != i {
                                assert(m2.blocks[j] == m.blocks[j]);
                            }
                        }
                    },
                    None => {},
                }
            },
        }
    }
}

} // verus!
