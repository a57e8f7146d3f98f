//! Behavior signatures and the symbol table that records them.

use vstd::prelude::*;
use crate::types::OnuType;

verus! {

/// The calling signature of a behavior.
#[derive(Debug, PartialEq, Eq, Hash)]
pub struct BehaviorSignature {
    pub input_types: Vec<OnuType>,
    pub return_type: OnuType,
    /// For each argument, whether the behavior only observes it (does not consume it).
    pub arg_is_observation: Vec<bool>,
}

/// The position of the first name in `names` equal to `name`, if any.
pub open spec fn first_index_of(names: Seq<String>, name: Seq<char>) -> Option<int>
    decreases names.len(),
{
    if names.len() == 0 {
        None
    } else if names.last()@ == name {
        match first_index_of(names.drop_last(), name) {
            Some(i) => Some(i),
            None => Some(names.len() - 1),
        }
    } else {
        first_index_of(names.drop_last(), name)
    }
}

/// `first_index_of` finds the first position holding the name, and `None`
/// means that no position holds it.
pub proof fn lemma_first_index_of(names: Seq<String>, name: Seq<char>)
    ensures
        first_index_of(names, name) matches Some(i) ==> 0 <= i < names.len() && names[i]@ == name
            && forall|j: int| 0 <= j < i ==> names[j]@ != name,
        first_index_of(names, name) is None ==> forall|j: int|
            0 <= j < names.len() ==> names[j]@ != name,
    decreases names.len(),
{
    if names.len() > 0 {
        let init = names.drop_last();
        lemma_first_index_of(init, name);
        assert(forall|j: int| 0 <= j < init.len() ==> init[j] == names[j]);
    }
}

/// Finds the first position in `names` holding `name`.
pub fn find_name(names: &Vec<String>, name: &str) -> (r: Option<usize>)
    ensures
        r matches Some(i) ==> i < names@.len() && names@[i as int]@ == name@ && forall|j: int|
            0 <= j < i ==> names@[j]@ != name@,
        r is None ==> forall|j: int| 0 <= j < names@.len() ==> names@[j]@ != name@,
        r matches Some(i) ==> first_index_of(names@, name@) == Some(i as int),
        r is None ==> first_index_of(names@, name@) is None,
{
    let mut i: usize = 0;
    while i < names.len()
        invariant
            i <= names@.len(),
            forall|j: int| 0 <= j < i ==> names@[j]@ != name@,
        decreases names.len() - i,
    {
        if crate::text::str_eq(names[i].as_str(), name) {
            proof {
                lemma_first_index_of(names@, name@);
            }
            return Some(i);
        }
        i = i + 1;
    }
    proof {
        lemma_first_index_of(names@, name@);
    }
    None
}

/// The names of a list of named entries.
pub open spec fn entry_names<T>(entries: Seq<(String, T)>) -> Seq<String> {
    entries.map_values(|e: (String, T)| e.0)
}

/// Finds the first entry of the given name.
pub fn find_entry<T>(entries: &Vec<(String, T)>, name: &str) -> (r: Option<usize>)
    ensures
        r matches Some(i) ==> first_index_of(entry_names(entries@), name@) == Some(i as int),
        r is None ==> first_index_of(entry_names(entries@), name@) is None,
        r matches Some(i) ==> i < entries@.len(),
{
    let ghost names = entry_names(entries@);
    let mut i: usize = 0;
    while i < entries.len()
        invariant
            i <= entries@.len(),
            names == entry_names(entries@),
            forall|j: int| 0 <= j < i ==> names[j]@ != name@,
        decreases entries.len() - i,
    {
        if crate::text::str_eq(entries[i].0.as_str(), name) {
            assert(names[i as int] == entries@[i as int].0);
            proof {
                lemma_first_index_of(names, name@);
                if first_index_of(names, name@) is None {
                    assert(names[i as int]@ == name@);
                }
            }
            return Some(i);
        }
        i = i + 1;
    }
    proof {
        lemma_first_index_of(names, name@);
    }
    None
}

/// Puts `value` under `name` in a list of named entries: replaces the first
/// entry of that name, or appends a new entry.
pub fn put_entry<T>(entries: &mut Vec<(String, T)>, name: &str, value: T)
    ensures
        match first_index_of(entry_names(old(entries)@), name@) {
            Some(i) => 0 <= i < old(entries)@.len() && final(entries)@ == old(entries)@.update(i, (old(entries)@[i].0, value)),
            None => final(entries)@.len() == old(entries)@.len() + 1
                && final(entries)@.drop_last() == old(entries)@
                && final(entries)@.last().0@ == name@
                && final(entries)@.last().1 == value,
        },
{
    proof {
        lemma_first_index_of(entry_names(entries@), name@);
    }
    match find_entry(entries, name) {
        Some(i) => {
            let ghost old_e = entries@;
            let mut slot = (String::new(), value);
            std::mem::swap(&mut slot.0, &mut entries[i].0);
            entries.set(i, slot);
            assert(entries@ =~= old_e.update(i as int, (old_e[i as int].0, entries@[i as int].1)));
        },
        None => {
            entries.push((crate::text::owned(name), value));
            assert(entries@.drop_last() =~= old(entries)@);
        },
    }
}

/// Looking a name up after `put_entry`: the name gives the new value, every
/// other name what it gave before.
pub proof fn lemma_put_entry_lookup<T>(before: Seq<(String, T)>, after: Seq<(String, T)>, name: Seq<char>, value: T, n: Seq<char>)
    requires
        match first_index_of(entry_names(before), name) {
            Some(i) => after == before.update(i, (before[i].0, value)),
            None => after.len() == before.len() + 1 && after.drop_last() == before
                && after.last().0@ == name && after.last().1 == value,
        },
    ensures
        n == name ==> (first_index_of(entry_names(after), n) matches Some(j) && after[j].1 == value),
        n != name ==> first_index_of(entry_names(after), n) == first_index_of(entry_names(before), n),
        n != name ==> (first_index_of(entry_names(after), n) matches Some(j) ==> after[j] == before[j]),
{
    let nb = entry_names(before);
    let na = entry_names(after);
    lemma_first_index_of(nb, name);
    match first_index_of(nb, name) {
        Some(i) => {
            assert(na =~= nb);
            lemma_first_index_of(na, n);
        },
        None => {
            assert(na.drop_last() =~= nb);
            assert(na.last()@ == name);
            lemma_first_index_of(nb, n);
            lemma_first_index_of(na, n);
            assert(forall|j: int| 0 <= j < before.len() ==> after[j] == before[j]);
        },
    }
}

/// The table of behavior signatures known to the compiler.
pub struct SymbolTable {
    entries: Vec<(String, BehaviorSignature)>,
    implemented: Vec<String>,
}

impl SymbolTable {
    /// The signature recorded under a name, if any.
    pub closed spec fn spec_lookup(&self, name: Seq<char>) -> Option<BehaviorSignature> {
        match first_index_of(entry_names(self.entries@), name) {
            Some(i) => Some(self.entries@[i].1),
            None => None,
        }
    }

    /// Whether a behavior has been marked as implemented.
    pub closed spec fn spec_is_implemented(&self, name: Seq<char>) -> bool {
        exists|i: int| 0 <= i < self.implemented@.len() && #[trigger] self.implemented@[i]@ == name
    }

    /// An empty table.
    pub fn new() -> (r: SymbolTable)
        ensures
            forall|n: Seq<char>| r.spec_lookup(n) is None,
            forall|n: Seq<char>| !r.spec_is_implemented(n),
    {
        SymbolTable { entries: Vec::new(), implemented: Vec::new() }
    }

    /// Records the signature of a behavior, replacing any earlier one.
    pub fn add_signature(&mut self, name: &str, sig: BehaviorSignature)
        ensures
            final(self).spec_lookup(name@) == Some(sig),
            forall|n: Seq<char>| n != name@ ==> final(self).spec_lookup(n) == old(self).spec_lookup(n),
            forall|n: Seq<char>| final(self).spec_is_implemented(n) == old(self).spec_is_implemented(n),
    {
        let ghost before = self.entries@;
        let ghost s = sig;
        put_entry(&mut self.entries, name, sig);
        proof {
            assert(self.implemented == old(self).implemented);
            assert forall|n: Seq<char>| self.spec_is_implemented(n) == old(self).spec_is_implemented(n) by {
                assert(self.implemented@ == old(self).implemented@);
            }
            lemma_put_entry_lookup(before, self.entries@, name@, s, name@);
            assert forall|n: Seq<char>| n != name@ implies self.spec_lookup(n) == old(self).spec_lookup(n) by {
                lemma_put_entry_lookup(before, self.entries@, name@, s, n);
            }
        }
    }

    /// The signature recorded under a name, if any.
    pub fn get_signature(&self, name: &str) -> (r: Option<&BehaviorSignature>)
        ensures
            r matches Some(s) ==> self.spec_lookup(name@) == Some(*s),
            r is None ==> self.spec_lookup(name@) is None,
    {
        match find_entry(&self.entries, name) {
            Some(i) => Some(&self.entries[i].1),
            None => None,
        }
    }

    /// Marks a behavior as having an implementation.
    pub fn mark_implemented(&mut self, name: &str)
        ensures
            final(self).spec_is_implemented(name@),
            forall|n: Seq<char>| n != name@ ==> final(self).spec_is_implemented(n) == old(self).spec_is_implemented(n),
            forall|n: Seq<char>| final(self).spec_lookup(n) == old(self).spec_lookup(n),
    {
        let ghost old_impl = self.implemented@;
        self.implemented.push(crate::text::owned(name));
        proof {
            let l = old_impl.len() as int;
            assert(self.implemented@[l]@ == name@);
            assert forall|n: Seq<char>| n != name@ implies self.spec_is_implemented(n) == old(self).spec_is_implemented(n) by {
                if self.spec_is_implemented(n) {
                    let i = choose|i: int| 0 <= i < self.implemented@.len() && #[trigger] self.implemented@[i]@ == n;
                    assert(i < l);
                    assert(old_impl[i]@ == n);
                }
                if old(self).spec_is_implemented(n) {
                    let i = choose|i: int| 0 <= i < old_impl.len() && #[trigger] old_impl[i]@ == n;
                    assert(self.implemented@[i]@ == n);
                }
            }
        }
    }

    /// Whether a behavior has been marked as implemented.
    pub fn is_implemented(&self, name: &str) -> (r: bool)
        ensures
            r == self.spec_is_implemented(name@),
    {
        let mut i: usize = 0;
        while i < self.implemented.len()
            invariant
                i <= self.implemented@.len(),
                forall|j: int| 0 <= j < i ==> self.implemented@[j]@ != name@,
            decreases self.implemented.len() - i,
        {
            if crate::text::str_eq(self.implemented[i].as_str(), name) {
                return true;
            }
            i = i + 1;
        }
        false
    }
}

/// Read access to behavior signatures.
pub trait BehaviorRegistryPort {
    fn get_signature(&self, name: &str) -> Option<&BehaviorSignature>;
}

/// A module of built-in behaviors that registers its signatures.
pub trait BuiltInModule {
    /// The symbol table that registering this module turns `before` into.
    spec fn registered(&self, before: SymbolTable) -> SymbolTable;

    fn name(&self) -> &str;

    /// Registers the module's signatures.
    fn register(&self, symbols: &mut SymbolTable)
        ensures
            *final(symbols) == self.registered(*old(symbols)),
    ;
}

} // verus!
