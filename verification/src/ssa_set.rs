//! Sets and maps of SSA variables: duplicate-free vectors as sets, and a
//! hash map that also lists its keys in insertion order.

use vstd::prelude::*;
use std::collections::HashMap;

verus! {

/// Whether `x` is in `v`.
pub fn vec_contains(v: &Vec<usize>, x: usize) -> (r: bool)
    ensures
        r == v@.contains(x),
{
    let mut i: usize = 0;
    while i < v.len()
        invariant
            i <= v@.len(),
            forall|j: int| 0 <= j < i ==> v@[j] != x,
        decreases v.len() - i,
    {
        if v[i] == x {
            assert(v@[i as int] == x);
            return true;
        }
        i = i + 1;
    }
    false
}

/// Adds `x` to `v` unless it is already there; returns whether it was added.
pub fn set_insert(v: &mut Vec<usize>, x: usize) -> (added: bool)
    ensures
        added == !old(v)@.contains(x),
        added ==> final(v)@ == old(v)@.push(x),
        !added ==> final(v)@ == old(v)@,
        forall|y: usize| final(v)@.contains(y) <==> (old(v)@.contains(y) || y == x),
{
    if vec_contains(v, x) {
        false
    } else {
        v.push(x);
        proof {
            assert forall|y: usize| v@.contains(y) <==> (old(v)@.contains(y) || y == x) by {
                if v@.contains(y) {
                    let j = choose|j: int| 0 <= j < v@.len() && v@[j] == y;
                    if j < old(v)@.len() {
                        assert(old(v)@[j] == y);
                    }
                }
                if old(v)@.contains(y) {
                    let j = choose|j: int| 0 <= j < old(v)@.len() && old(v)@[j] == y;
                    assert(v@[j] == y);
                }
                if y == x {
                    assert(v@[old(v)@.len() as int] == x);
                }
            }
        }
        true
    }
}

} // verus!

verus! {

/// A finite map from SSA variables to values: a hash map, with the list of
/// its keys in the order they were first inserted.
pub struct SsaMap<V> {
    map: HashMap<usize, V>,
    keys: Vec<usize>,
}

/// A map from SSA variables to 64-bit constants.
pub type ConstMap = SsaMap<i64>;

impl<V> SsaMap<V> {
    pub closed spec fn wf(&self) -> bool {
        &&& self.keys@.no_duplicates()
        &&& forall|k: usize| #[trigger] self.keys@.contains(k) <==> self.map@.contains_key(k)
    }

    /// The mapping held.
    pub closed spec fn view(&self) -> Map<usize, V> {
        self.map@
    }

    pub fn new() -> (r: SsaMap<V>)
        ensures
            r.wf(),
            r.view() == Map::<usize, V>::empty(),
    {
        SsaMap { map: HashMap::new(), keys: Vec::new() }
    }

    /// Maps `k` to `v`, replacing any earlier value.
    pub fn insert(&mut self, k: usize, v: V)
        requires
            old(self).wf(),
        ensures
            final(self).wf(),
            final(self).view() == old(self).view().insert(k, v),
    {
        let prev = self.map.insert(k, v);
        match prev {
            None => {
                self.keys.push(k);
                proof {
                    assert forall|a: int, b: int| 0 <= a < b < self.keys@.len() implies self.keys@[a] != self.keys@[b] by {
                        if b == self.keys@.len() - 1 {
                            assert(old(self).keys@.contains(self.keys@[a]));
                        }
                    }
                    assert forall|kk: usize| #[trigger] self.keys@.contains(kk) <==> self.map@.contains_key(kk) by {
                        if self.keys@.contains(kk) && kk != k {
                            let j = choose|j: int| 0 <= j < self.keys@.len() && self.keys@[j] == kk;
                            assert(old(self).keys@[j] == kk);
                            assert(old(self).keys@.contains(kk));
                        }
                        if old(self).keys@.contains(kk) {
                            let j = choose|j: int| 0 <= j < old(self).keys@.len() && old(self).keys@[j] == kk;
                            assert(self.keys@[j] == kk);
                        }
                        if kk == k {
                            assert(self.keys@[old(self).keys@.len() as int] == k);
                        }
                    }
                }
            },
            Some(_) => {},
        }
    }

    /// The variables the map holds, each once, in the order they were first
    /// inserted.
    pub fn key_list(&self) -> (r: &Vec<usize>)
        requires
            self.wf(),
        ensures
            r@.no_duplicates(),
            forall|k: usize| r@.contains(k) <==> self.view().contains_key(k),
    {
        &self.keys
    }

    /// The value `k` maps to, if any.
    pub fn get(&self, k: usize) -> (r: Option<&V>)
        requires
            self.wf(),
        ensures
            r == (if self.view().contains_key(k) { Some(&self.view()[k]) } else { None }),
    {
        self.map.get(&k)
    }
}

} // verus!
