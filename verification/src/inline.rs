//! Inlining of pure functions: the bodies of inlineable functions replace
//! their call sites, with their variables and blocks renumbered above the
//! caller's.

use vstd::prelude::*;
use crate::mir::{BasicBlock, MirArgument, MirFunction, MirInstruction, MirOperand, MirProgram, MirTerminator, spec_calls};
use crate::mir_util::{calls_fn, spec_calls_fn};
use crate::types::{dup_types, ty_equiv};
use crate::text::str_eq;

verus! {

/// Whether some instruction of the blocks has a visible effect (output or
/// a store).
pub open spec fn has_effects(blocks: Seq<BasicBlock>) -> bool {
    exists|b: int, i: int| 0 <= b < blocks.len() && 0 <= i < blocks[b].instructions@.len()
        && ((#[trigger] blocks[b].instructions@[i]) is Emit || blocks[b].instructions@[i] is Store)
}

/// Whether a function of the program is named `n`.
pub open spec fn defines(fs: Seq<MirFunction>, n: Seq<char>) -> bool {
    exists|k: int| 0 <= k < fs.len() && (#[trigger] fs[k]).name@ == n
}

/// Whether every call of the blocks to a function of the program targets a
/// name in `s`.
pub open spec fn callees_within(fs: Seq<MirFunction>, blocks: Seq<BasicBlock>, s: Set<Seq<char>>) -> bool {
    forall|b: int, i: int, n: Seq<char>| 0 <= b < blocks.len() && 0 <= i < blocks[b].instructions@.len()
        && #[trigger] spec_calls(blocks[b].instructions@[i], n) && defines(fs, n) ==> s.contains(n)
}

/// Whether `f` may be inlined once the names in `s` may: it calls itself
/// nowhere, and it is either marked as a pure leaf, or has no visible
/// effect and calls, within the program, only names in `s`.
pub open spec fn admissible(fs: Seq<MirFunction>, f: MirFunction, s: Set<Seq<char>>) -> bool {
    &&& !spec_calls_fn(f.blocks@, f.name@)
    &&& (f.is_pure_data_leaf || (!has_effects(f.blocks@) && callees_within(fs, f.blocks@, s)))
}

/// Whether the name at position `t` of `w` is that of a function admissible
/// given the names before it.
pub open spec fn admitted_at(fs: Seq<MirFunction>, w: Seq<Seq<char>>, t: int) -> bool {
    exists|k: int| 0 <= k < fs.len() && (#[trigger] fs[k]).name@ == w[t]
        && admissible(fs, fs[k], w.take(t).to_set())
}

/// Whether `w` lists names in an order in which each is the name of a
/// function admissible given the names before it.
pub open spec fn valid_order(fs: Seq<MirFunction>, w: Seq<Seq<char>>) -> bool {
    forall|t: int| 0 <= t < w.len() ==> #[trigger] admitted_at(fs, w, t)
}

/// Whether the functions named `n` may be inlined: the least set of names
/// closed under admissibility holds `n`.
pub open spec fn inlineable(fs: Seq<MirFunction>, n: Seq<char>) -> bool {
    exists|w: Seq<Seq<char>>| #[trigger] valid_order(fs, w) && w.contains(n)
}

/// The texts of a list of names.
pub open spec fn texts(v: Seq<String>) -> Seq<Seq<char>> {
    v.map_values(|s: String| s@)
}

fn has_effects_exec(blocks: &Vec<BasicBlock>) -> (r: bool)
    ensures
        r == has_effects(blocks@),
{
    let mut b: usize = 0;
    while b < blocks.len()
        invariant
            b <= blocks@.len(),
            forall|bb: int, i: int| 0 <= bb < b && 0 <= i < blocks@[bb].instructions@.len()
                ==> !((#[trigger] blocks@[bb].instructions@[i]) is Emit || blocks@[bb].instructions@[i] is Store),
        decreases blocks.len() - b,
    {
        let insts = &blocks[b].instructions;
        let mut i: usize = 0;
        while i < insts.len()
            invariant
                b < blocks@.len(),
                *insts == blocks@[b as int].instructions,
                i <= insts@.len(),
                forall|bb: int, ii: int| 0 <= bb < b && 0 <= ii < blocks@[bb].instructions@.len()
                    ==> !((#[trigger] blocks@[bb].instructions@[ii]) is Emit || blocks@[bb].instructions@[ii] is Store),
                forall|ii: int| 0 <= ii < i ==> !((#[trigger] insts@[ii]) is Emit || insts@[ii] is Store),
            decreases insts.len() - i,
        {
            match &insts[i] {
                MirInstruction::Emit(_) | MirInstruction::Store { .. } => {
                    assert(blocks@[b as int].instructions@[i as int] == insts@[i as int]);
                    return true;
                },
                _ => {},
            }
            i = i + 1;
        }
        b = b + 1;
    }
    false
}

/// Whether `names` holds `n`.
fn holds(names: &Vec<String>, n: &String) -> (r: bool)
    ensures
        r == texts(names@).contains(n@),
{
    let mut j: usize = 0;
    while j < names.len()
        invariant
            j <= names@.len(),
            forall|k: int| 0 <= k < j ==> names@[k]@ != n@,
        decreases names.len() - j,
    {
        if names[j] == *n {
            assert(texts(names@)[j as int] == n@);
            return true;
        }
        j = j + 1;
    }
    proof {
        if texts(names@).contains(n@) {
            let k = choose|k: int| 0 <= k < texts(names@).len() && texts(names@)[k] == n@;
            assert(names@[k]@ == n@);
        }
    }
    false
}

fn defines_exec(fs: &Vec<MirFunction>, n: &String) -> (r: bool)
    ensures
        r == defines(fs@, n@),
{
    let mut k: usize = 0;
    while k < fs.len()
        invariant
            k <= fs@.len(),
            forall|j: int| 0 <= j < k ==> fs@[j].name@ != n@,
        decreases fs.len() - k,
    {
        if fs[k].name == *n {
            return true;
        }
        k = k + 1;
    }
    false
}

/// Whether every call of the blocks to a function of the program targets a
/// name in `names`.
fn callees_within_exec(fs: &Vec<MirFunction>, blocks: &Vec<BasicBlock>, names: &Vec<String>) -> (r: bool)
    ensures
        r == callees_within(fs@, blocks@, texts(names@).to_set()),
{
    let ghost s = texts(names@).to_set();
    let mut b: usize = 0;
    while b < blocks.len()
        invariant
            b <= blocks@.len(),
            s == texts(names@).to_set(),
            forall|bb: int, i: int, n: Seq<char>| 0 <= bb < b && 0 <= i < blocks@[bb].instructions@.len()
                && #[trigger] spec_calls(blocks@[bb].instructions@[i], n) && defines(fs@, n) ==> s.contains(n),
        decreases blocks.len() - b,
    {
        let insts = &blocks[b].instructions;
        let mut i: usize = 0;
        while i < insts.len()
            invariant
                b < blocks@.len(),
                *insts == blocks@[b as int].instructions,
                i <= insts@.len(),
                s == texts(names@).to_set(),
                forall|bb: int, ii: int, n: Seq<char>| 0 <= bb < b && 0 <= ii < blocks@[bb].instructions@.len()
                    && #[trigger] spec_calls(blocks@[bb].instructions@[ii], n) && defines(fs@, n) ==> s.contains(n),
                forall|ii: int, n: Seq<char>| 0 <= ii < i && #[trigger] spec_calls(insts@[ii], n) && defines(fs@, n) ==> s.contains(n),
            decreases insts.len() - i,
        {
            if let MirInstruction::Call { name, .. } = &insts[i] {
                if defines_exec(fs, name) && !holds(names, name) {
                    assert(spec_calls(blocks@[b as int].instructions@[i as int], name@));
                    return false;
                }
            }
            i = i + 1;
        }
        b = b + 1;
    }
    true
}

/// The names of a list of functions.
pub open spec fn fnames(fs: Seq<MirFunction>) -> Seq<Seq<char>> {
    fs.map_values(|f: MirFunction| f.name@)
}

proof fn lemma_callees_mono(fs: Seq<MirFunction>, blocks: Seq<BasicBlock>, a: Set<Seq<char>>, b: Set<Seq<char>>)
    requires
        a.subset_of(b),
        callees_within(fs, blocks, a),
    ensures
        callees_within(fs, blocks, b),
{
}

proof fn lemma_admissible_mono(fs: Seq<MirFunction>, f: MirFunction, a: Set<Seq<char>>, b: Set<Seq<char>>)
    requires
        a.subset_of(b),
        admissible(fs, f, a),
    ensures
        admissible(fs, f, b),
{
    if !f.is_pure_data_leaf {
        lemma_callees_mono(fs, f.blocks@, a, b);
    }
}

proof fn lemma_push_valid(fs: Seq<MirFunction>, w: Seq<Seq<char>>, k: int)
    requires
        valid_order(fs, w),
        0 <= k < fs.len(),
        admissible(fs, fs[k], w.to_set()),
    ensures
        valid_order(fs, w.push(fs[k].name@)),
{
    let w2 = w.push(fs[k].name@);
    assert forall|t: int| 0 <= t < w2.len() implies #[trigger] admitted_at(fs, w2, t) by {
        if t < w.len() {
            assert(admitted_at(fs, w, t));
            assert(w2.take(t) =~= w.take(t));
            let j = choose|j: int| 0 <= j < fs.len() && (#[trigger] fs[j]).name@ == w[t]
                && admissible(fs, fs[j], w.take(t).to_set());
            assert(fs[j].name@ == w2[t]);
        } else {
            assert(w2.take(t) =~= w);
            assert(fs[k].name@ == w2[t]);
        }
    }
}

proof fn lemma_order_len(fs: Seq<MirFunction>, w: Seq<Seq<char>>)
    requires
        valid_order(fs, w),
        w.no_duplicates(),
    ensures
        w.len() <= fs.len(),
{
    let names = fnames(fs);
    assert forall|x: Seq<char>| w.to_set().contains(x) implies names.to_set().contains(x) by {
        let t = choose|t: int| 0 <= t < w.len() && w[t] == x;
        assert(admitted_at(fs, w, t));
        let k = choose|k: int| 0 <= k < fs.len() && (#[trigger] fs[k]).name@ == w[t]
            && admissible(fs, fs[k], w.take(t).to_set());
        assert(names[k] == x);
    }
    w.unique_seq_to_set();
    names.lemma_cardinality_of_set();
    vstd::seq_lib::seq_to_set_is_finite(names);
    vstd::set_lib::lemma_len_subset(w.to_set(), names.to_set());
}

/// Every name of a valid order lies in a set that holds the name of every
/// function admissible given it.
proof fn lemma_order_within(fs: Seq<MirFunction>, w: Seq<Seq<char>>, s: Set<Seq<char>>, t: int)
    requires
        valid_order(fs, w),
        forall|k: int| 0 <= k < fs.len() ==> s.contains((#[trigger] fs[k]).name@) || !admissible(fs, fs[k], s),
        0 <= t < w.len(),
    ensures
        s.contains(w[t]),
    decreases t,
{
    assert forall|x: Seq<char>| w.take(t).to_set().contains(x) implies s.contains(x) by {
        let u = choose|u: int| 0 <= u < w.take(t).len() && w.take(t)[u] == x;
        lemma_order_within(fs, w, s, u);
    }
    assert(admitted_at(fs, w, t));
    let k = choose|k: int| 0 <= k < fs.len() && (#[trigger] fs[k]).name@ == w[t]
        && admissible(fs, fs[k], w.take(t).to_set());
    lemma_admissible_mono(fs, fs[k], w.take(t).to_set(), s);
}

proof fn lemma_push_text(v: Seq<String>, x: String)
    ensures
        texts(v.push(x)) == texts(v).push(x@),
        texts(v.push(x)).contains(x@),
        forall|y: Seq<char>| texts(v).contains(y) ==> #[trigger] texts(v.push(x)).contains(y),
{
    assert(texts(v.push(x)) =~= texts(v).push(x@));
    assert(texts(v.push(x))[v.len() as int] == x@);
    assert forall|y: Seq<char>| texts(v).contains(y) implies #[trigger] texts(v.push(x)).contains(y) by {
        let i = choose|i: int| 0 <= i < texts(v).len() && texts(v)[i] == y;
        assert(texts(v.push(x))[i] == y);
    }
}

/// The names of the functions that may be inlined, each once: the least set
/// closed under admissibility, found by passes until one adds nothing.
pub fn inlineable_names(fs: &Vec<MirFunction>) -> (r: Vec<String>)
    ensures
        texts(r@).no_duplicates(),
        forall|n: Seq<char>| #![trigger texts(r@).contains(n)] #![trigger inlineable(fs@, n)]
            texts(r@).contains(n) <==> inlineable(fs@, n),
{
    let mut names: Vec<String> = Vec::new();
    let mut k: usize = 0;
    proof {
        assert(texts(names@) =~= Seq::<Seq<char>>::empty());
    }
    while k < fs.len()
        invariant
            k <= fs@.len(),
            valid_order(fs@, texts(names@)),
            texts(names@).no_duplicates(),
            names@.len() <= fs@.len(),
            forall|j: int| 0 <= j < k && (#[trigger] fs@[j]).is_pure_data_leaf
                && !spec_calls_fn(fs@[j].blocks@, fs@[j].name@) ==> texts(names@).contains(fs@[j].name@),
        decreases fs.len() - k,
    {
        let f = &fs[k];
        if f.is_pure_data_leaf && !calls_fn(&f.blocks, &f.name) && !holds(&names, &f.name) {
            proof {
                lemma_push_valid(fs@, texts(names@), k as int);
                lemma_push_text(names@, f.name);
                lemma_order_len(fs@, texts(names@).push(f.name@));
            }
            names.push(f.name.clone());
        }
        k = k + 1;
    }
    let mut done = false;
    while !done
        invariant
            valid_order(fs@, texts(names@)),
            texts(names@).no_duplicates(),
            names@.len() <= fs@.len(),
            forall|j: int| 0 <= j < fs@.len() && (#[trigger] fs@[j]).is_pure_data_leaf
                && !spec_calls_fn(fs@[j].blocks@, fs@[j].name@) ==> texts(names@).contains(fs@[j].name@),
            done ==> forall|j: int| 0 <= j < fs@.len() ==> texts(names@).to_set().contains((#[trigger] fs@[j]).name@)
                || !admissible(fs@, fs@[j], texts(names@).to_set()),
        decreases (fs@.len() - names@.len()) * 2 + if done { 0int } else { 1int },
    {
        let ghost before = names@;
        let mut changed = false;
        let mut k: usize = 0;
        while k < fs.len()
            invariant
                k <= fs@.len(),
                valid_order(fs@, texts(names@)),
                texts(names@).no_duplicates(),
                names@.len() <= fs@.len(),
                names@.len() >= before.len(),
                !changed ==> names@ == before,
                changed ==> names@.len() > before.len(),
                forall|j: int| 0 <= j < fs@.len() && (#[trigger] fs@[j]).is_pure_data_leaf
                    && !spec_calls_fn(fs@[j].blocks@, fs@[j].name@) ==> texts(names@).contains(fs@[j].name@),
                !changed ==> forall|j: int| 0 <= j < k ==> texts(names@).to_set().contains((#[trigger] fs@[j]).name@)
                    || !admissible(fs@, fs@[j], texts(names@).to_set()),
            decreases fs.len() - k,
        {
            let f = &fs[k];
            if !holds(&names, &f.name) && !has_effects_exec(&f.blocks) && !calls_fn(&f.blocks, &f.name)
                && callees_within_exec(fs, &f.blocks, &names) {
                proof {
                    lemma_push_valid(fs@, texts(names@), k as int);
                    lemma_push_text(names@, f.name);
                    lemma_order_len(fs@, texts(names@).push(f.name@));
                }
                names.push(f.name.clone());
                changed = true;
            }
            k = k + 1;
        }
        if !changed {
            done = true;
        }
    }
    proof {
        let s = texts(names@).to_set();
        assert forall|n: Seq<char>| #![trigger texts(names@).contains(n)] #![trigger inlineable(fs@, n)]
            texts(names@).contains(n) <==> inlineable(fs@, n) by {
            if texts(names@).contains(n) {
                assert(valid_order(fs@, texts(names@)));
            }
            if inlineable(fs@, n) {
                let w = choose|w: Seq<Seq<char>>| #[trigger] valid_order(fs@, w) && w.contains(n);
                let t = choose|t: int| 0 <= t < w.len() && w[t] == n;
                lemma_order_within(fs@, w, s, t);
            }
        }
    }
    names
}

/// The position of the last function named `n`, or -1.
pub open spec fn last_index(fs: Seq<MirFunction>, n: Seq<char>) -> int
    decreases fs.len(),
{
    if fs.len() == 0 {
        -1
    } else if fs.last().name@ == n {
        fs.len() - 1
    } else {
        last_index(fs.drop_last(), n)
    }
}

/// The last function named `n`: the body that calls to `n` receive.
pub open spec fn last_fn(fs: Seq<MirFunction>, n: Seq<char>) -> MirFunction {
    fs[last_index(fs, n)]
}

/// The name an instruction calls, if it is a call.
pub open spec fn call_name(inst: MirInstruction) -> Option<Seq<char>> {
    match inst {
        MirInstruction::Call { name, .. } => Some(name@),
        _ => None,
    }
}

/// The number of arguments a call passes (0 for other instructions).
pub open spec fn call_arity(inst: MirInstruction) -> nat {
    match inst {
        MirInstruction::Call { args, .. } => args@.len(),
        _ => 0,
    }
}

/// Whether a block ends in a jump to a smaller block number.
pub open spec fn jumps_back(b: BasicBlock) -> bool {
    match b.terminator {
        MirTerminator::Branch(t) => t < b.id,
        _ => false,
    }
}

/// Whether some block jumps back: the mark of a self-call turned into a loop.
pub open spec fn loop_lowered(blocks: Seq<BasicBlock>) -> bool {
    exists|i: int| 0 <= i < blocks.len() && jumps_back(#[trigger] blocks[i])
}

/// Whether `inst` is a call that is expanded inside a function named
/// `cname`, `s` being the names that may be inlined: the callee may be
/// inlined and is another function, or one whose self-calls became loops.
pub open spec fn expands(fs: Seq<MirFunction>, s: Set<Seq<char>>, cname: Seq<char>, inst: MirInstruction) -> bool {
    match call_name(inst) {
        Some(n) => s.contains(n) && (n != cname || loop_lowered(last_fn(fs, n).blocks@)),
        None => false,
    }
}

/// Whether no instruction of the blocks is a call that is expanded.
pub open spec fn no_expansion(fs: Seq<MirFunction>, s: Set<Seq<char>>, cname: Seq<char>, blocks: Seq<BasicBlock>) -> bool {
    forall|b: int, i: int| 0 <= b < blocks.len() && 0 <= i < blocks[b].instructions@.len()
        ==> !expands(fs, s, cname, #[trigger] blocks[b].instructions@[i])
}

/// Whether every call to a name of `s` in the blocks passes at least as
/// many arguments as that function takes, and that function has a block.
pub open spec fn calls_fit(fs: Seq<MirFunction>, s: Set<Seq<char>>, blocks: Seq<BasicBlock>) -> bool {
    forall|b: int, i: int| 0 <= b < blocks.len() && 0 <= i < blocks[b].instructions@.len()
        ==> #[trigger] call_fits(fs, s, blocks[b].instructions@[i])
}

/// Whether a call to a name of `s` passes at least as many arguments as that
/// function takes, and that function has a block.
pub open spec fn call_fits(fs: Seq<MirFunction>, s: Set<Seq<char>>, inst: MirInstruction) -> bool {
    match call_name(inst) {
        Some(n) => s.contains(n) ==> call_arity(inst) >= last_fn(fs, n).args@.len()
            && last_fn(fs, n).blocks@.len() >= 1,
        None => true,
    }
}

/// Whether `rank` strictly decreases along every expanded call from the body
/// of a name of `s`: expansion inside `cname` then comes to an end.
pub open spec fn ranked(fs: Seq<MirFunction>, s: Set<Seq<char>>, cname: Seq<char>, rank: spec_fn(Seq<char>) -> nat) -> bool {
    forall|n: Seq<char>, b: int, i: int| s.contains(n) && 0 <= b < last_fn(fs, n).blocks@.len()
        && 0 <= i < last_fn(fs, n).blocks@[b].instructions@.len()
        && #[trigger] expands(fs, s, cname, last_fn(fs, n).blocks@[b].instructions@[i])
        ==> rank(call_name(last_fn(fs, n).blocks@[b].instructions@[i])->0) < rank(n)
}

/// The context in which the amount of expansion left is measured.
pub struct Expansion {
    pub fs: Seq<MirFunction>,
    pub s: Set<Seq<char>>,
    pub cname: Seq<char>,
    pub rank: spec_fn(Seq<char>) -> nat,
}

impl Expansion {
    /// What expanding a call to `n` costs: one, plus the blocks of its body.
    pub open spec fn body_pot(self, n: Seq<char>) -> nat
        decreases (self.rank)(n), 2nat, 0nat,
    {
        1 + self.blocks_pot(last_fn(self.fs, n).blocks@, (self.rank)(n))
    }

    /// What a list of blocks costs: one per block, plus its expanded calls
    /// to names ranked under `cap`.
    pub open spec fn blocks_pot(self, bs: Seq<BasicBlock>, cap: nat) -> nat
        decreases cap, 1nat, bs.len(),
    {
        if bs.len() == 0 {
            0
        } else {
            self.blocks_pot(bs.drop_last(), cap) + 1 + self.insts_pot(bs.last().instructions@, cap)
        }
    }

    pub open spec fn insts_pot(self, is: Seq<MirInstruction>, cap: nat) -> nat
        decreases cap, 0nat, is.len(),
    {
        if is.len() == 0 {
            0
        } else {
            self.insts_pot(is.drop_last(), cap) + self.inst_pot(is.last(), cap)
        }
    }

    pub open spec fn inst_pot(self, inst: MirInstruction, cap: nat) -> nat
        decreases cap, 0nat, 0nat,
    {
        match call_name(inst) {
            Some(n) => if expands(self.fs, self.s, self.cname, inst) && (self.rank)(n) < cap {
                self.body_pot(n)
            } else {
                0
            },
            None => 0,
        }
    }
}

proof fn lemma_insts_pot_add(e: Expansion, a: Seq<MirInstruction>, b: Seq<MirInstruction>, cap: nat)
    ensures
        e.insts_pot(a + b, cap) == e.insts_pot(a, cap) + e.insts_pot(b, cap),
    decreases b.len(),
{
    if b.len() == 0 {
        assert(a + b =~= a);
    } else {
        assert((a + b).drop_last() =~= a + b.drop_last());
        assert((a + b).last() == b.last());
        lemma_insts_pot_add(e, a, b.drop_last(), cap);
    }
}

proof fn lemma_blocks_pot_add(e: Expansion, a: Seq<BasicBlock>, b: Seq<BasicBlock>, cap: nat)
    ensures
        e.blocks_pot(a + b, cap) == e.blocks_pot(a, cap) + e.blocks_pot(b, cap),
    decreases b.len(),
{
    if b.len() == 0 {
        assert(a + b =~= a);
    } else {
        assert((a + b).drop_last() =~= a + b.drop_last());
        assert((a + b).last() == b.last());
        lemma_blocks_pot_add(e, a, b.drop_last(), cap);
    }
}

/// Raising the cap above every rank that occurs changes nothing.
proof fn lemma_insts_cap(e: Expansion, is: Seq<MirInstruction>, c1: nat, c2: nat)
    requires
        c1 <= c2,
        forall|i: int| 0 <= i < is.len() && #[trigger] expands(e.fs, e.s, e.cname, is[i])
            ==> (e.rank)(call_name(is[i])->0) < c1,
    ensures
        e.insts_pot(is, c1) == e.insts_pot(is, c2),
    decreases is.len(),
{
    if is.len() > 0 {
        assert(expands(e.fs, e.s, e.cname, is[is.len() - 1]) ==> (e.rank)(call_name(is[is.len() - 1])->0) < c1);
        assert forall|i: int| 0 <= i < is.drop_last().len() && #[trigger] expands(e.fs, e.s, e.cname, is.drop_last()[i])
            implies (e.rank)(call_name(is.drop_last()[i])->0) < c1 by {
            assert(is.drop_last()[i] == is[i]);
        }
        lemma_insts_cap(e, is.drop_last(), c1, c2);
        assert(e.inst_pot(is.last(), c1) == e.inst_pot(is.last(), c2));
    }
}

proof fn lemma_blocks_cap(e: Expansion, bs: Seq<BasicBlock>, c1: nat, c2: nat)
    requires
        c1 <= c2,
        forall|b: int, i: int| 0 <= b < bs.len() && 0 <= i < bs[b].instructions@.len()
            && #[trigger] expands(e.fs, e.s, e.cname, bs[b].instructions@[i])
            ==> (e.rank)(call_name(bs[b].instructions@[i])->0) < c1,
    ensures
        e.blocks_pot(bs, c1) == e.blocks_pot(bs, c2),
    decreases bs.len(),
{
    if bs.len() > 0 {
        let last = bs.len() - 1;
        assert forall|i: int| 0 <= i < bs[last].instructions@.len()
            && #[trigger] expands(e.fs, e.s, e.cname, bs[last].instructions@[i])
            implies (e.rank)(call_name(bs[last].instructions@[i])->0) < c1 by {
        }
        lemma_insts_cap(e, bs.last().instructions@, c1, c2);
        assert forall|b: int, i: int| 0 <= b < bs.drop_last().len() && 0 <= i < bs.drop_last()[b].instructions@.len()
            && #[trigger] expands(e.fs, e.s, e.cname, bs.drop_last()[b].instructions@[i])
            implies (e.rank)(call_name(bs.drop_last()[b].instructions@[i])->0) < c1 by {
            assert(bs.drop_last()[b] == bs[b]);
        }
        lemma_blocks_cap(e, bs.drop_last(), c1, c2);
    }
}

/// A list of instructions without expanded calls costs nothing.
proof fn lemma_insts_pot_zero(e: Expansion, is: Seq<MirInstruction>, cap: nat)
    requires
        forall|i: int| 0 <= i < is.len() ==> !expands(e.fs, e.s, e.cname, #[trigger] is[i]),
    ensures
        e.insts_pot(is, cap) == 0,
    decreases is.len(),
{
    if is.len() > 0 {
        assert(!expands(e.fs, e.s, e.cname, is[is.len() - 1]));
        assert forall|i: int| 0 <= i < is.drop_last().len() implies !expands(e.fs, e.s, e.cname, #[trigger] is.drop_last()[i]) by {
            assert(is.drop_last()[i] == is[i]);
        }
        lemma_insts_pot_zero(e, is.drop_last(), cap);
        assert(e.inst_pot(is.last(), cap) == 0);
    }
}

/// Whether an operand names no SSA variable above `k`.
pub open spec fn op_within(op: MirOperand, k: nat) -> bool {
    match op {
        MirOperand::Variable(v, _) => v <= k,
        MirOperand::Constant(_) => true,
    }
}

pub open spec fn ops_within(ops: Seq<MirOperand>, k: nat) -> bool {
    forall|i: int| 0 <= i < ops.len() ==> op_within(#[trigger] ops[i], k)
}

/// Whether an instruction defines and reads no SSA variable above `k`.
pub open spec fn inst_within(inst: MirInstruction, k: nat) -> bool {
    match inst {
        MirInstruction::Assign { dest, src } => dest <= k && op_within(src, k),
        MirInstruction::BinaryOperation { dest, lhs, rhs, .. } => dest <= k && op_within(lhs, k) && op_within(rhs, k),
        MirInstruction::Call { dest, args, .. } => dest <= k && ops_within(args@, k),
        MirInstruction::Tuple { dest, elements } => dest <= k && ops_within(elements@, k),
        MirInstruction::Index { dest, subject, .. } => dest <= k && op_within(subject, k),
        MirInstruction::Alloc { dest, size_bytes } => dest <= k && op_within(size_bytes, k),
        MirInstruction::StackAlloc { dest, .. } => dest <= k,
        MirInstruction::GlobalAlloc { dest, .. } => dest <= k,
        MirInstruction::SaveArena { dest } => dest <= k,
        MirInstruction::RestoreArena { saved } => op_within(saved, k),
        MirInstruction::PointerOffset { dest, ptr, offset } => dest <= k && op_within(ptr, k) && op_within(offset, k),
        MirInstruction::Load { dest, ptr, .. } => dest <= k && op_within(ptr, k),
        MirInstruction::Store { ptr, value } => op_within(ptr, k) && op_within(value, k),
        MirInstruction::TypedStore { ptr, value, .. } => op_within(ptr, k) && op_within(value, k),
        MirInstruction::MemCopy { dest, src, size } => op_within(dest, k) && op_within(src, k) && op_within(size, k),
        MirInstruction::MemSet { ptr, value, size } => op_within(ptr, k) && op_within(value, k) && op_within(size, k),
        MirInstruction::Emit(op) => op_within(op, k),
        MirInstruction::Drop { ssa_var, .. } => ssa_var <= k,
        MirInstruction::Promote { dest, src, .. } => dest <= k && op_within(src, k),
        MirInstruction::BitCast { dest, src, .. } => dest <= k && op_within(src, k),
        MirInstruction::ConstantTableLoad { dest, index, .. } => dest <= k && op_within(index, k),
        MirInstruction::FunnelShiftRight { dest, hi, lo, amount, .. } =>
            dest <= k && op_within(hi, k) && op_within(lo, k) && op_within(amount, k),
        MirInstruction::BufferedWrite { ptr, len } => op_within(ptr, k) && op_within(len, k),
        MirInstruction::FlushStdout => true,
    }
}

/// Whether a terminator reads no SSA variable and names no block above `k`.
pub open spec fn term_within(t: MirTerminator, k: nat) -> bool {
    match t {
        MirTerminator::Return(op) => op_within(op, k),
        MirTerminator::Branch(b) => b <= k,
        MirTerminator::CondBranch { condition, then_block, else_block } =>
            op_within(condition, k) && then_block <= k && else_block <= k,
        MirTerminator::Unreachable => true,
    }
}

/// Whether every number in a block (its own, its variables, its targets) is
/// at most `k`.
pub open spec fn block_within(b: BasicBlock, k: nat) -> bool {
    &&& b.id <= k
    &&& term_within(b.terminator, k)
    &&& forall|i: int| 0 <= i < b.instructions@.len() ==> inst_within(#[trigger] b.instructions@[i], k)
}

pub open spec fn blocks_within(bs: Seq<BasicBlock>, k: nat) -> bool {
    forall|i: int| 0 <= i < bs.len() ==> block_within(#[trigger] bs[i], k)
}

pub open spec fn args_within(args: Seq<MirArgument>, k: nat) -> bool {
    forall|i: int| 0 <= i < args.len() ==> (#[trigger] args[i]).ssa_var <= k
}

proof fn lemma_inst_within_mono(inst: MirInstruction, a: nat, b: nat)
    requires
        inst_within(inst, a),
        a <= b,
    ensures
        inst_within(inst, b),
{
    match inst {
        MirInstruction::Call { args, .. } => {
            assert forall|i: int| 0 <= i < args@.len() implies op_within(#[trigger] args@[i], b) by {
                assert(op_within(args@[i], a));
            }
        },
        MirInstruction::Tuple { elements, .. } => {
            assert forall|i: int| 0 <= i < elements@.len() implies op_within(#[trigger] elements@[i], b) by {
                assert(op_within(elements@[i], a));
            }
        },
        _ => {},
    }
}

/// An operand with its variable moved up by `off`.
pub open spec fn shift_op(op: MirOperand, off: nat) -> MirOperand {
    match op {
        MirOperand::Variable(v, c) => MirOperand::Variable((v + off) as usize, c),
        MirOperand::Constant(l) => MirOperand::Constant(l),
    }
}

fn remap_operand(op: &MirOperand, off: usize) -> (r: MirOperand)
    requires
        op_within(*op, (usize::MAX - off) as nat),
    ensures
        r == shift_op(*op, off as nat),
        forall|k: nat| #[trigger] op_within(*op, k) ==> op_within(r, k + off as nat),
{
    match op {
        MirOperand::Variable(v, c) => MirOperand::Variable(*v + off, *c),
        MirOperand::Constant(l) => MirOperand::Constant(l.dup()),
    }
}

fn remap_operands(v: &Vec<MirOperand>, off: usize) -> (r: Vec<MirOperand>)
    requires
        ops_within(v@, (usize::MAX - off) as nat),
    ensures
        r@.len() == v@.len(),
        forall|i: int| 0 <= i < v@.len() ==> #[trigger] r@[i] == shift_op(v@[i], off as nat),
        forall|k: nat| #[trigger] ops_within(v@, k) ==> ops_within(r@, k + off as nat),
{
    let mut out: Vec<MirOperand> = Vec::new();
    let mut i: usize = 0;
    while i < v.len()
        invariant
            i <= v@.len(),
            ops_within(v@, (usize::MAX - off) as nat),
            out@.len() == i,
            forall|j: int| 0 <= j < i ==> #[trigger] out@[j] == shift_op(v@[j], off as nat),
        decreases v.len() - i,
    {
        assert(op_within(v@[i as int], (usize::MAX - off) as nat));
        out.push(remap_operand(&v[i], off));
        i = i + 1;
    }
    proof {
        assert forall|k: nat| #[trigger] ops_within(v@, k) implies ops_within(out@, k + off as nat) by {
            assert forall|j: int| 0 <= j < out@.len() implies op_within(#[trigger] out@[j], k + off as nat) by {
                assert(op_within(v@[j], k));
            }
        }
    }
    out
}

/// An instruction with every SSA variable it defines or reads moved up by
/// `off`: calls keep their callee and their number of arguments.
#[verifier::spinoff_prover]
#[verifier::rlimit(40)]
fn remap_instruction(inst: &MirInstruction, off: usize) -> (r: MirInstruction)
    requires
        inst_within(*inst, (usize::MAX - off) as nat),
    ensures
        inst_shifted(*inst, r, off as nat),
        call_name(r) == call_name(*inst),
        call_arity(r) == call_arity(*inst),
        forall|k: nat| #[trigger] inst_within(*inst, k) ==> inst_within(r, k + off as nat),
{
    match inst {
        MirInstruction::Assign { dest, src } => MirInstruction::Assign { dest: *dest + off, src: remap_operand(src, off) },
        MirInstruction::BinaryOperation { dest, op, lhs, rhs, dest_type } => MirInstruction::BinaryOperation {
            dest: *dest + off,
            op: *op,
            lhs: remap_operand(lhs, off),
            rhs: remap_operand(rhs, off),
            dest_type: dest_type.dup(),
        },
        MirInstruction::Call { dest, name, args, return_type, arg_types, is_tail_call } => MirInstruction::Call {
            dest: *dest + off,
            name: name.clone(),
            args: remap_operands(args, off),
            return_type: return_type.dup(),
            arg_types: dup_types(arg_types),
            is_tail_call: *is_tail_call,
        },
        MirInstruction::Tuple { dest, elements } => MirInstruction::Tuple { dest: *dest + off, elements: remap_operands(elements, off) },
        MirInstruction::Index { dest, subject, index } => MirInstruction::Index {
            dest: *dest + off,
            subject: remap_operand(subject, off),
            index: *index,
        },
        MirInstruction::Alloc { dest, size_bytes } => MirInstruction::Alloc { dest: *dest + off, size_bytes: remap_operand(size_bytes, off) },
        MirInstruction::StackAlloc { dest, size_bytes } => MirInstruction::StackAlloc { dest: *dest + off, size_bytes: *size_bytes },
        MirInstruction::GlobalAlloc { dest, size_bytes, name } => MirInstruction::GlobalAlloc {
            dest: *dest + off,
            size_bytes: *size_bytes,
            name: name.clone(),
        },
        MirInstruction::SaveArena { dest } => MirInstruction::SaveArena { dest: *dest + off },
        MirInstruction::RestoreArena { saved } => MirInstruction::RestoreArena { saved: remap_operand(saved, off) },
        MirInstruction::PointerOffset { dest, ptr, offset } => MirInstruction::PointerOffset {
            dest: *dest + off,
            ptr: remap_operand(ptr, off),
            offset: remap_operand(offset, off),
        },
        MirInstruction::Load { dest, ptr, typ } => MirInstruction::Load { dest: *dest + off, ptr: remap_operand(ptr, off), typ: typ.dup() },
        _ => remap_other(inst, off),
    }
}

/// `b` is `a` with every SSA variable it defines or reads moved up by
/// `off`; everything else (operators, callees, constants, types up to
/// equivalence) is kept.
pub open spec fn inst_shifted(a: MirInstruction, b: MirInstruction, off: nat) -> bool {
    match a {
        MirInstruction::Assign { dest, src } => b == (MirInstruction::Assign { dest: (dest + off) as usize, src: shift_op(src, off) }),
        MirInstruction::BinaryOperation { dest, op, lhs, rhs, dest_type } =>
            b matches MirInstruction::BinaryOperation { dest: d2, op: o2, lhs: l2, rhs: r2, dest_type: t2 }
                && d2 == dest + off && o2 == op && l2 == shift_op(lhs, off) && r2 == shift_op(rhs, off) && ty_equiv(t2, dest_type),
        MirInstruction::Call { dest, name, args, return_type, arg_types, is_tail_call } =>
            b matches MirInstruction::Call { dest: d2, name: n2, args: a2, return_type: rt2, arg_types: at2, is_tail_call: tc2 }
                && d2 == dest + off && n2@ == name@ && a2@.len() == args@.len()
                && (forall|i: int| 0 <= i < args@.len() ==> #[trigger] a2@[i] == shift_op(args@[i], off))
                && ty_equiv(rt2, return_type) && at2@.len() == arg_types@.len()
                && (forall|i: int| 0 <= i < arg_types@.len() ==> ty_equiv(#[trigger] at2@[i], arg_types@[i]))
                && tc2 == is_tail_call,
        MirInstruction::Tuple { dest, elements } =>
            b matches MirInstruction::Tuple { dest: d2, elements: e2 }
                && d2 == dest + off && e2@.len() == elements@.len()
                && (forall|i: int| 0 <= i < elements@.len() ==> #[trigger] e2@[i] == shift_op(elements@[i], off)),
        MirInstruction::Index { dest, subject, index } =>
            b == (MirInstruction::Index { dest: (dest + off) as usize, subject: shift_op(subject, off), index }),
        MirInstruction::Alloc { dest, size_bytes } =>
            b == (MirInstruction::Alloc { dest: (dest + off) as usize, size_bytes: shift_op(size_bytes, off) }),
        MirInstruction::StackAlloc { dest, size_bytes } =>
            b == (MirInstruction::StackAlloc { dest: (dest + off) as usize, size_bytes }),
        MirInstruction::GlobalAlloc { dest, size_bytes, name } =>
            b matches MirInstruction::GlobalAlloc { dest: d2, size_bytes: s2, name: n2 }
                && d2 == dest + off && s2 == size_bytes && n2@ == name@,
        MirInstruction::SaveArena { dest } => b == (MirInstruction::SaveArena { dest: (dest + off) as usize }),
        MirInstruction::RestoreArena { saved } => b == (MirInstruction::RestoreArena { saved: shift_op(saved, off) }),
        MirInstruction::PointerOffset { dest, ptr, offset } =>
            b == (MirInstruction::PointerOffset { dest: (dest + off) as usize, ptr: shift_op(ptr, off), offset: shift_op(offset, off) }),
        MirInstruction::Load { dest, ptr, typ } =>
            b matches MirInstruction::Load { dest: d2, ptr: p2, typ: t2 }
                && d2 == dest + off && p2 == shift_op(ptr, off) && ty_equiv(t2, typ),
        _ => other_shifted(a, b, off),
    }
}

/// `b` is `a` with every SSA variable it defines or reads moved up by
/// `off`, for the instructions that store, copy, print, drop or convert.
pub open spec fn other_shifted(a: MirInstruction, b: MirInstruction, off: nat) -> bool {
    match a {
        MirInstruction::Store { ptr, value } =>
            b == (MirInstruction::Store { ptr: shift_op(ptr, off), value: shift_op(value, off) }),
        MirInstruction::TypedStore { ptr, value, typ } =>
            b matches MirInstruction::TypedStore { ptr: p2, value: v2, typ: t2 }
                && p2 == shift_op(ptr, off) && v2 == shift_op(value, off) && ty_equiv(t2, typ),
        MirInstruction::MemCopy { dest, src, size } =>
            b == (MirInstruction::MemCopy { dest: shift_op(dest, off), src: shift_op(src, off), size: shift_op(size, off) }),
        MirInstruction::MemSet { ptr, value, size } =>
            b == (MirInstruction::MemSet { ptr: shift_op(ptr, off), value: shift_op(value, off), size: shift_op(size, off) }),
        MirInstruction::Emit(op) => b == MirInstruction::Emit(shift_op(op, off)),
        MirInstruction::Drop { ssa_var, typ, name, is_dynamic } =>
            b matches MirInstruction::Drop { ssa_var: v2, typ: t2, name: n2, is_dynamic: d2 }
                && v2 == ssa_var + off && ty_equiv(t2, typ) && n2@ == name@ && d2 == is_dynamic,
        MirInstruction::Promote { dest, src, to_type } =>
            b matches MirInstruction::Promote { dest: d2, src: s2, to_type: t2 }
                && d2 == dest + off && s2 == shift_op(src, off) && ty_equiv(t2, to_type),
        MirInstruction::BitCast { dest, src, to_type } =>
            b matches MirInstruction::BitCast { dest: d2, src: s2, to_type: t2 }
                && d2 == dest + off && s2 == shift_op(src, off) && ty_equiv(t2, to_type),
        MirInstruction::ConstantTableLoad { dest, name, values, index } =>
            b matches MirInstruction::ConstantTableLoad { dest: d2, name: n2, values: v2, index: i2 }
                && d2 == dest + off && n2@ == name@ && v2@ == values@ && i2 == shift_op(index, off),
        MirInstruction::FunnelShiftRight { dest, hi, lo, amount, width } =>
            b == (MirInstruction::FunnelShiftRight {
                dest: (dest + off) as usize,
                hi: shift_op(hi, off),
                lo: shift_op(lo, off),
                amount: shift_op(amount, off),
                width,
            }),
        MirInstruction::BufferedWrite { ptr, len } =>
            b == (MirInstruction::BufferedWrite { ptr: shift_op(ptr, off), len: shift_op(len, off) }),
        MirInstruction::FlushStdout => b is FlushStdout,
        _ => false,
    }
}

/// `remap_instruction` for the instructions that store, copy, print, drop or
/// convert.
#[verifier::spinoff_prover]
#[verifier::rlimit(40)]
fn remap_other(inst: &MirInstruction, off: usize) -> (r: MirInstruction)
    requires
        inst_within(*inst, (usize::MAX - off) as nat),
        !(inst is Assign || inst is BinaryOperation || inst is Call || inst is Tuple || inst is Index || inst is Alloc
            || inst is StackAlloc || inst is GlobalAlloc || inst is SaveArena || inst is RestoreArena
            || inst is PointerOffset || inst is Load),
    ensures
        other_shifted(*inst, r, off as nat),
        call_name(r) == call_name(*inst),
        call_arity(r) == call_arity(*inst),
        forall|k: nat| #[trigger] inst_within(*inst, k) ==> inst_within(r, k + off as nat),
{
    match inst {
        MirInstruction::Store { ptr, value } => MirInstruction::Store { ptr: remap_operand(ptr, off), value: remap_operand(value, off) },
        MirInstruction::TypedStore { ptr, value, typ } => MirInstruction::TypedStore {
            ptr: remap_operand(ptr, off),
            value: remap_operand(value, off),
            typ: typ.dup(),
        },
        MirInstruction::MemCopy { dest, src, size } => MirInstruction::MemCopy {
            dest: remap_operand(dest, off),
            src: remap_operand(src, off),
            size: remap_operand(size, off),
        },
        MirInstruction::MemSet { ptr, value, size } => MirInstruction::MemSet {
            ptr: remap_operand(ptr, off),
            value: remap_operand(value, off),
            size: remap_operand(size, off),
        },
        MirInstruction::Emit(op) => MirInstruction::Emit(remap_operand(op, off)),
        MirInstruction::Drop { ssa_var, typ, name, is_dynamic } => MirInstruction::Drop {
            ssa_var: *ssa_var + off,
            typ: typ.dup(),
            name: name.clone(),
            is_dynamic: *is_dynamic,
        },
        MirInstruction::Promote { dest, src, to_type } => MirInstruction::Promote {
            dest: *dest + off,
            src: remap_operand(src, off),
            to_type: to_type.dup(),
        },
        MirInstruction::BitCast { dest, src, to_type } => MirInstruction::BitCast {
            dest: *dest + off,
            src: remap_operand(src, off),
            to_type: to_type.dup(),
        },
        MirInstruction::ConstantTableLoad { dest, name, values, index } => MirInstruction::ConstantTableLoad {
            dest: *dest + off,
            name: name.clone(),
            values: values.clone(),
            index: remap_operand(index, off),
        },
        MirInstruction::FunnelShiftRight { dest, hi, lo, amount, width } => MirInstruction::FunnelShiftRight {
            dest: *dest + off,
            hi: remap_operand(hi, off),
            lo: remap_operand(lo, off),
            amount: remap_operand(amount, off),
            width: *width,
        },
        MirInstruction::BufferedWrite { ptr, len } => MirInstruction::BufferedWrite { ptr: remap_operand(ptr, off), len: remap_operand(len, off) },
        MirInstruction::FlushStdout => MirInstruction::FlushStdout,
        _ => {
            proof {
                assert(false);
            }
            MirInstruction::FlushStdout
        },
    }
}

proof fn lemma_inst_within_max(inst: MirInstruction)
    ensures
        inst_within(inst, usize::MAX as nat),
{
    match inst {
        MirInstruction::Call { args, .. } => {
            assert forall|i: int| 0 <= i < args@.len() implies op_within(#[trigger] args@[i], usize::MAX as nat) by {}
        },
        MirInstruction::Tuple { elements, .. } => {
            assert forall|i: int| 0 <= i < elements@.len() implies op_within(#[trigger] elements@[i], usize::MAX as nat) by {}
        },
        _ => {},
    }
}

/// Whether two lists of instructions have the same length and, position by
/// position, the same callee and number of call arguments.
pub open spec fn insts_like(a: Seq<MirInstruction>, b: Seq<MirInstruction>) -> bool {
    &&& a.len() == b.len()
    &&& forall|i: int| 0 <= i < a.len() ==> call_name(#[trigger] b[i]) == call_name(a[i]) && call_arity(b[i]) == call_arity(a[i])
}

/// Whether two lists of blocks match block by block: same numbers, same
/// terminators, and instructions alike.
pub open spec fn blocks_like(a: Seq<BasicBlock>, b: Seq<BasicBlock>) -> bool {
    &&& a.len() == b.len()
    &&& forall|i: int| 0 <= i < a.len() ==> (#[trigger] b[i]).id == a[i].id && b[i].terminator == a[i].terminator
        && insts_like(a[i].instructions@, b[i].instructions@)
}

proof fn lemma_insts_like_pot(e: Expansion, a: Seq<MirInstruction>, b: Seq<MirInstruction>, cap: nat)
    requires
        insts_like(a, b),
    ensures
        e.insts_pot(a, cap) == e.insts_pot(b, cap),
    decreases a.len(),
{
    if a.len() > 0 {
        assert(insts_like(a.drop_last(), b.drop_last())) by {
            assert forall|i: int| 0 <= i < a.drop_last().len() implies call_name(#[trigger] b.drop_last()[i]) == call_name(a.drop_last()[i])
                && call_arity(b.drop_last()[i]) == call_arity(a.drop_last()[i]) by {
                assert(call_name(b[i]) == call_name(a[i]));
            }
        }
        lemma_insts_like_pot(e, a.drop_last(), b.drop_last(), cap);
        assert(call_name(b[a.len() - 1]) == call_name(a[a.len() - 1]));
        assert(e.inst_pot(a.last(), cap) == e.inst_pot(b.last(), cap));
    }
}

proof fn lemma_blocks_like_pot(e: Expansion, a: Seq<BasicBlock>, b: Seq<BasicBlock>, cap: nat)
    requires
        blocks_like(a, b),
    ensures
        e.blocks_pot(a, cap) == e.blocks_pot(b, cap),
    decreases a.len(),
{
    if a.len() > 0 {
        assert(blocks_like(a.drop_last(), b.drop_last())) by {
            assert forall|i: int| 0 <= i < a.drop_last().len() implies (#[trigger] b.drop_last()[i]).id == a.drop_last()[i].id
                && b.drop_last()[i].terminator == a.drop_last()[i].terminator
                && insts_like(a.drop_last()[i].instructions@, b.drop_last()[i].instructions@) by {
                assert(b[i].id == a[i].id);
            }
        }
        lemma_blocks_like_pot(e, a.drop_last(), b.drop_last(), cap);
        assert(insts_like(a[a.len() - 1].instructions@, b[a.len() - 1].instructions@));
        lemma_insts_like_pot(e, a.last().instructions@, b.last().instructions@, cap);
    }
}

/// `b` is a copy of the block `a`: same number and terminator, and each
/// instruction the same (types up to equivalence).
pub open spec fn block_copied(a: BasicBlock, b: BasicBlock) -> bool {
    &&& b.id == a.id
    &&& b.terminator == a.terminator
    &&& b.instructions@.len() == a.instructions@.len()
    &&& forall|j: int| 0 <= j < a.instructions@.len() ==> inst_shifted(a.instructions@[j], #[trigger] b.instructions@[j], 0)
}

/// `b` is a copy of the blocks `a`, block by block.
pub open spec fn blocks_copied(a: Seq<BasicBlock>, b: Seq<BasicBlock>) -> bool {
    &&& a.len() == b.len()
    &&& forall|i: int| 0 <= i < a.len() ==> block_copied(a[i], #[trigger] b[i])
}

fn copy_insts(is: &Vec<MirInstruction>) -> (r: Vec<MirInstruction>)
    ensures
        insts_like(is@, r@),
        forall|j: int| 0 <= j < is@.len() ==> inst_shifted(is@[j], #[trigger] r@[j], 0),
        forall|k: nat| #![trigger blocks_within_insts(is@, k)] blocks_within_insts(is@, k) ==> blocks_within_insts(r@, k),
{
    let mut out: Vec<MirInstruction> = Vec::new();
    let mut i: usize = 0;
    while i < is.len()
        invariant
            i <= is@.len(),
            out@.len() == i,
            forall|j: int| 0 <= j < i ==> call_name(#[trigger] out@[j]) == call_name(is@[j]) && call_arity(out@[j]) == call_arity(is@[j]),
            forall|k: nat, j: int| 0 <= j < i && inst_within(is@[j], k) ==> #[trigger] inst_within(out@[j], k),
            forall|j: int| 0 <= j < i ==> inst_shifted(is@[j], #[trigger] out@[j], 0),
        decreases is.len() - i,
    {
        proof {
            lemma_inst_within_max(is@[i as int]);
        }
        let c = remap_instruction(&is[i], 0);
        out.push(c);
        proof {
            assert forall|k: nat, j: int| 0 <= j < i + 1 && inst_within(is@[j], k) implies #[trigger] inst_within(out@[j], k) by {
                if j == i {
                    assert(inst_within(c, k + 0usize as nat));
                }
            }
        }
        i = i + 1;
    }
    out
}

/// Whether every instruction of a list is within `k`.
pub open spec fn blocks_within_insts(is: Seq<MirInstruction>, k: nat) -> bool {
    forall|i: int| 0 <= i < is.len() ==> inst_within(#[trigger] is[i], k)
}

fn copy_blocks(bs: &Vec<BasicBlock>) -> (r: Vec<BasicBlock>)
    ensures
        blocks_like(bs@, r@),
        blocks_copied(bs@, r@),
        forall|k: nat| #[trigger] blocks_within(bs@, k) ==> blocks_within(r@, k),
{
    let mut out: Vec<BasicBlock> = Vec::new();
    let mut i: usize = 0;
    while i < bs.len()
        invariant
            i <= bs@.len(),
            out@.len() == i,
            forall|j: int| 0 <= j < i ==> (#[trigger] out@[j]).id == bs@[j].id && out@[j].terminator == bs@[j].terminator
                && insts_like(bs@[j].instructions@, out@[j].instructions@),
            forall|j: int| 0 <= j < i ==> block_copied(bs@[j], #[trigger] out@[j]),
            forall|k: nat, j: int| 0 <= j < i && block_within(bs@[j], k) ==> #[trigger] block_within(out@[j], k),
        decreases bs.len() - i,
    {
        let insts = copy_insts(&bs[i].instructions);
        let b = BasicBlock { id: bs[i].id, instructions: insts, terminator: bs[i].terminator.dup() };
        out.push(b);
        proof {
            assert forall|k: nat, j: int| 0 <= j < i + 1 && block_within(bs@[j], k) implies #[trigger] block_within(out@[j], k) by {
                if j == i {
                    assert(blocks_within_insts(bs@[j].instructions@, k));
                }
            }
        }
        i = i + 1;
    }
    proof {
        assert forall|k: nat| #[trigger] blocks_within(bs@, k) implies blocks_within(out@, k) by {
            assert forall|j: int| 0 <= j < out@.len() implies block_within(#[trigger] out@[j], k) by {
                assert(block_within(bs@[j], k));
            }
        }
    }
    out
}

/// Appends the instructions moved up by `off`.
#[verifier::rlimit(80)]
fn push_remapped(out: &mut Vec<MirInstruction>, insts: &Vec<MirInstruction>, off: usize, Ghost(kk): Ghost<nat>, Ghost(bound): Ghost<nat>)
    requires
        blocks_within_insts(insts@, kk),
        kk + off <= bound,
        bound <= usize::MAX,
    ensures
        final(out)@.len() == old(out)@.len() + insts@.len(),
        forall|j: int| 0 <= j < old(out)@.len() ==> #[trigger] final(out)@[j] == old(out)@[j],
        forall|j: int| 0 <= j < insts@.len() ==> call_name(#[trigger] final(out)@[old(out)@.len() + j]) == call_name(insts@[j])
            && call_arity(final(out)@[old(out)@.len() + j]) == call_arity(insts@[j]),
        forall|j: int| 0 <= j < insts@.len() ==> #[trigger] inst_within(final(out)@[old(out)@.len() + j], bound),
        forall|j: int| 0 <= j < insts@.len() ==> inst_shifted(insts@[j], #[trigger] final(out)@[old(out)@.len() + j], off as nat),
        forall|e: Expansion, cap: nat| #[trigger] e.insts_pot(final(out)@, cap) == e.insts_pot(old(out)@, cap) + e.insts_pot(insts@, cap),
{
    let ghost pre = out@;
    let mut i: usize = 0;
    while i < insts.len()
        invariant
            i <= insts@.len(),
            blocks_within_insts(insts@, kk),
            kk + off <= bound,
            bound <= usize::MAX,
            out@.len() == pre.len() + i,
            forall|j: int| 0 <= j < pre.len() ==> #[trigger] out@[j] == pre[j],
            forall|j: int| 0 <= j < i ==> call_name(#[trigger] out@[pre.len() + j]) == call_name(insts@[j])
                && call_arity(out@[pre.len() + j]) == call_arity(insts@[j]),
            forall|j: int| 0 <= j < i ==> #[trigger] inst_within(out@[pre.len() + j], bound),
            forall|j: int| 0 <= j < i ==> inst_shifted(insts@[j], #[trigger] out@[pre.len() + j], off as nat),
            forall|e: Expansion, cap: nat| #[trigger] e.insts_pot(out@, cap) == e.insts_pot(pre, cap) + e.insts_pot(insts@.take(i as int), cap),
        decreases insts.len() - i,
    {
        assert(inst_within(insts@[i as int], kk));
        proof {
            lemma_inst_within_mono(insts@[i as int], kk, (usize::MAX - off) as nat);
        }
        let c = remap_instruction(&insts[i], off);
        let ghost before = out@;
        out.push(c);
        proof {
            assert(inst_within(c, kk + off as nat));
            lemma_inst_within_mono(c, kk + off as nat, bound);
            assert(out@[pre.len() + i] == c);
            assert forall|j: int| 0 <= j < i + 1 implies inst_shifted(insts@[j], #[trigger] out@[pre.len() + j], off as nat) by {
                if j < i {
                    assert(out@[pre.len() + j] == before[pre.len() + j]);
                }
            }
            assert forall|e: Expansion, cap: nat| #[trigger] e.insts_pot(out@, cap) == e.insts_pot(pre, cap) + e.insts_pot(insts@.take(i + 1), cap) by {
                assert(out@.drop_last() =~= before);
                assert(insts@.take(i + 1).drop_last() =~= insts@.take(i as int));
                assert(e.insts_pot(before, cap) == e.insts_pot(pre, cap) + e.insts_pot(insts@.take(i as int), cap));
                assert(e.inst_pot(c, cap) == e.inst_pot(insts@[i as int], cap));
            }
        }
        i = i + 1;
    }
    assert(insts@.take(insts@.len() as int) =~= insts@);
}

/// `nb` is the block `b` of a callee after inlining at a call with
/// arguments `call_args` and destination `dest`: its number moved up by
/// `boff`; in the entry block, first the callee's parameters bound to the
/// call's arguments; then `b`'s instructions with their variables moved up
/// by `soff`; a return becomes a copy of the returned value to `dest` and a
/// jump to `cont`, other terminators keep their shape, moved up.
pub open spec fn block_remapped(
    nb: BasicBlock,
    b: BasicBlock,
    entry: bool,
    callee_args: Seq<usize>,
    call_args: Seq<MirOperand>,
    dest: usize,
    soff: nat,
    boff: nat,
    cont: usize,
) -> bool {
    let m: int = if entry { callee_args.len() as int } else { 0 };
    let is = b.instructions@;
    let out = nb.instructions@;
    &&& nb.id == b.id + boff
    &&& out.len() == m + is.len() + (if b.terminator is Return { 1int } else { 0int })
    &&& forall|i: int| 0 <= i < m ==> #[trigger] out[i] == (MirInstruction::Assign { dest: (callee_args[i] + soff) as usize, src: call_args[i] })
    &&& forall|j: int| 0 <= j < is.len() ==> inst_shifted(is[j], #[trigger] out[m + j], soff)
    &&& match b.terminator {
        MirTerminator::Return(op) => out[out.len() - 1] == (MirInstruction::Assign { dest, src: shift_op(op, soff) })
            && nb.terminator == MirTerminator::Branch(cont),
        MirTerminator::Branch(t) => nb.terminator == MirTerminator::Branch((t + boff) as usize),
        MirTerminator::CondBranch { condition, then_block, else_block } => nb.terminator == (MirTerminator::CondBranch {
            condition: shift_op(condition, soff),
            then_block: (then_block + boff) as usize,
            else_block: (else_block + boff) as usize,
        }),
        MirTerminator::Unreachable => nb.terminator == MirTerminator::Unreachable,
    }
}

/// One block of the callee after inlining: moved clear of the caller, its
/// parameters bound at entry, its return turned into a copy to the call's
/// destination and a jump to `cont_id`.
#[verifier::spinoff_prover]
#[verifier::rlimit(80)]
fn remap_block(
    block: &BasicBlock,
    entry: bool,
    callee_args: &Vec<usize>,
    call_args: &Vec<MirOperand>,
    call_dest: usize,
    ssa_offset: usize,
    block_offset: usize,
    cont_id: usize,
    Ghost(kk): Ghost<nat>,
    Ghost(bound): Ghost<nat>,
    Ghost(fs): Ghost<Seq<MirFunction>>,
    Ghost(s): Ghost<Set<Seq<char>>>,
) -> (nb: BasicBlock)
    requires
        callee_args@.len() <= call_args@.len(),
        block_within(*block, kk),
        forall|i: int| 0 <= i < callee_args@.len() ==> #[trigger] callee_args@[i] <= kk,
        kk + ssa_offset <= bound,
        kk + block_offset <= bound,
        cont_id <= bound,
        bound <= usize::MAX,
        ops_within(call_args@, bound),
        call_dest <= bound,
        forall|i: int| 0 <= i < block.instructions@.len() ==> #[trigger] call_fits(fs, s, block.instructions@[i]),
    ensures
        nb.id == block.id + block_offset,
        block_remapped(nb, *block, entry, callee_args@, call_args@, call_dest, ssa_offset as nat, block_offset as nat, cont_id),
        block_within(nb, bound),
        forall|i: int| 0 <= i < nb.instructions@.len() ==> #[trigger] call_fits(fs, s, nb.instructions@[i]),
        forall|e: Expansion, cap: nat| #[trigger] e.insts_pot(nb.instructions@, cap) == e.insts_pot(block.instructions@, cap),
{
        let ghost orig = block.instructions@;
        let mut instructions: Vec<MirInstruction> = Vec::new();
        if entry {
            let mut ai: usize = 0;
            while ai < callee_args.len()
                invariant
                    ai <= callee_args@.len(),
                    callee_args@.len() <= call_args@.len(),
                    forall|i: int| 0 <= i < callee_args@.len() ==> #[trigger] callee_args@[i] <= kk,
                    kk + ssa_offset <= bound,
                    bound <= usize::MAX,
                    ops_within(call_args@, bound),
                    forall|j: int| 0 <= j < instructions@.len() ==> #[trigger] inst_within(instructions@[j], bound),
                    forall|j: int| 0 <= j < instructions@.len() ==> #[trigger] call_name(instructions@[j]) is None,
                    forall|e: Expansion, cap: nat| #[trigger] e.insts_pot(instructions@, cap) == 0,
                    instructions@.len() == ai,
                    forall|i: int| 0 <= i < ai ==> #[trigger] instructions@[i]
                        == (MirInstruction::Assign { dest: (callee_args@[i] + ssa_offset) as usize, src: call_args@[i] }),
                decreases callee_args.len() - ai,
            {
                assert(callee_args@[ai as int] <= kk);
                assert(op_within(call_args@[ai as int], bound));
                let a = MirInstruction::Assign { dest: callee_args[ai] + ssa_offset, src: call_args[ai].dup() };
                let ghost before = instructions@;
                instructions.push(a);
                proof {
                    assert forall|e: Expansion, cap: nat| #[trigger] e.insts_pot(instructions@, cap) == 0 by {
                        assert(instructions@.drop_last() =~= before);
                        assert(e.insts_pot(before, cap) == 0);
                        assert(call_name(a) is None);
                        assert(e.inst_pot(a, cap) == 0);
                    }
                }
                ai = ai + 1;
            }
        }
        let ghost pre = instructions@;
        assert(pre.len() == if entry { callee_args@.len() as int } else { 0int });
        proof {
            assert forall|j: int| 0 <= j < orig.len() implies #[trigger] inst_within(orig[j], kk) by {
                    }
        }
        push_remapped(&mut instructions, &block.instructions, ssa_offset, Ghost(kk), Ghost(bound));
        assert forall|j: int| 0 <= j < instructions@.len() implies #[trigger] inst_within(instructions@[j], bound) by {
            if j < pre.len() {
                assert(instructions@[j] == pre[j]);
                assert(inst_within(pre[j], bound));
            } else {
                assert(instructions@[pre.len() + (j - pre.len())] == instructions@[j]);
            }
        }
        let ghost mid = instructions@;
        assert(forall|j: int| 0 <= j < pre.len() ==> #[trigger] call_name(mid[j]) is None);
        let terminator = match &block.terminator {
            MirTerminator::Return(op) => {
                proof {
                    assert(op_within(*op, kk));
                }
                let v = remap_operand(op, ssa_offset);
                let a = MirInstruction::Assign { dest: call_dest, src: v };
                instructions.push(a);
                proof {
                    assert(op_within(v, kk + ssa_offset as nat));
                    assert(inst_within(a, bound));
                    assert forall|j: int| 0 <= j < instructions@.len() implies #[trigger] inst_within(instructions@[j], bound) by {
                        if j < mid.len() {
                            assert(instructions@[j] == mid[j]);
                        }
                    }
                    assert forall|e: Expansion, cap: nat| #[trigger] e.insts_pot(instructions@, cap) == e.insts_pot(mid, cap) by {
                        assert(instructions@.drop_last() =~= mid);
                        assert(call_name(a) is None);
                        assert(e.inst_pot(a, cap) == 0);
                    }
                }
                MirTerminator::Branch(cont_id)
            },
            MirTerminator::Branch(t) => MirTerminator::Branch(*t + block_offset),
            MirTerminator::CondBranch { condition, then_block, else_block } => {
                proof {
                    assert(op_within(*condition, kk));
                }
                let c = remap_operand(condition, ssa_offset);
                assert(op_within(c, kk + ssa_offset as nat));
                MirTerminator::CondBranch {
                    condition: c,
                    then_block: *then_block + block_offset,
                    else_block: *else_block + block_offset,
                }
            },
            MirTerminator::Unreachable => MirTerminator::Unreachable,
        };
        proof {
            assert forall|e: Expansion, cap: nat| #[trigger] e.insts_pot(instructions@, cap) == e.insts_pot(orig, cap) by {
                assert(e.insts_pot(mid, cap) == e.insts_pot(pre, cap) + e.insts_pot(orig, cap));
                if instructions@.len() == mid.len() {
                    assert(instructions@ =~= mid);
                }
                assert forall|j: int| 0 <= j < pre.len() implies !expands(e.fs, e.s, e.cname, #[trigger] pre[j]) by {
                    assert(pre[j] == mid[j]);
                    assert(call_name(mid[j]) is None);
                }
                lemma_insts_pot_zero(e, pre, cap);
            }
        }
        let nb = BasicBlock { id: block.id + block_offset, instructions, terminator };
        proof {
            let m: int = pre.len() as int;
            assert forall|i: int| 0 <= i < m implies #[trigger] nb.instructions@[i]
                == (MirInstruction::Assign { dest: (callee_args@[i] + ssa_offset) as usize, src: call_args@[i] }) by {
                assert(nb.instructions@[i] == mid[i]);
                assert(mid[i] == pre[i]);
            }
            assert forall|j: int| 0 <= j < orig.len() implies inst_shifted(orig[j], #[trigger] nb.instructions@[m + j], ssa_offset as nat) by {
                assert(nb.instructions@[m + j] == mid[m + j]);
            }
            assert(block_remapped(nb, *block, entry, callee_args@, call_args@, call_dest, ssa_offset as nat, block_offset as nat, cont_id));
            assert(block_within(nb, bound));
            assert forall|i: int| 0 <= i < nb.instructions@.len() implies #[trigger] call_fits(fs, s, nb.instructions@[i]) by {
                let ins = nb.instructions@;
                if i < pre.len() {
                    assert(call_name(ins[i]) is None);
                } else if i < pre.len() + orig.len() {
                    let j = i - pre.len();
                    assert(call_name(ins[pre.len() + j]) == call_name(orig[j]));
                    assert(call_fits(fs, s, orig[j]));
                } else {
                    assert(call_name(ins[i]) is None);
                }
            }
        }
        nb
}

/// The blocks of a call after inlining: the callee's blocks with their
/// numbers and variables moved clear of the caller's, the callee's
/// parameters bound to the call's arguments at entry, and every return
/// turned into a copy to the call's destination and a jump to `cont_id`.
fn remap_callee(
    callee_args: &Vec<usize>,
    callee_blocks: &Vec<BasicBlock>,
    call_args: &Vec<MirOperand>,
    call_dest: usize,
    ssa_offset: usize,
    block_offset: usize,
    cont_id: usize,
    Ghost(kk): Ghost<nat>,
    Ghost(bound): Ghost<nat>,
    Ghost(fs): Ghost<Seq<MirFunction>>,
    Ghost(s): Ghost<Set<Seq<char>>>,
) -> (r: Vec<BasicBlock>)
    requires
        callee_blocks@.len() >= 1,
        callee_args@.len() <= call_args@.len(),
        blocks_within(callee_blocks@, kk),
        forall|i: int| 0 <= i < callee_args@.len() ==> #[trigger] callee_args@[i] <= kk,
        kk + ssa_offset <= bound,
        kk + block_offset <= bound,
        cont_id <= bound,
        bound <= usize::MAX,
        ops_within(call_args@, bound),
        call_dest <= bound,
        calls_fit(fs, s, callee_blocks@),
    ensures
        r@.len() == callee_blocks@.len(),
        r@[0].id == callee_blocks@[0].id + block_offset,
        forall|i: int| 0 <= i < r@.len() ==> block_remapped(#[trigger] r@[i], callee_blocks@[i], i == 0, callee_args@, call_args@,
            call_dest, ssa_offset as nat, block_offset as nat, cont_id),
        blocks_within(r@, bound),
        calls_fit(fs, s, r@),
        forall|e: Expansion, cap: nat| #[trigger] e.blocks_pot(r@, cap) == e.blocks_pot(callee_blocks@, cap),
{
    let mut out: Vec<BasicBlock> = Vec::new();
    let mut bi: usize = 0;
    while bi < callee_blocks.len()
        invariant
            bi <= callee_blocks@.len(),
            out@.len() == bi,
            callee_blocks@.len() >= 1,
            callee_args@.len() <= call_args@.len(),
            blocks_within(callee_blocks@, kk),
            forall|i: int| 0 <= i < callee_args@.len() ==> #[trigger] callee_args@[i] <= kk,
            kk + ssa_offset <= bound,
            kk + block_offset <= bound,
            cont_id <= bound,
            bound <= usize::MAX,
            ops_within(call_args@, bound),
            call_dest <= bound,
            calls_fit(fs, s, callee_blocks@),
            bi > 0 ==> out@[0].id == callee_blocks@[0].id + block_offset,
            forall|i: int| 0 <= i < bi ==> block_remapped(#[trigger] out@[i], callee_blocks@[i], i == 0, callee_args@, call_args@,
                call_dest, ssa_offset as nat, block_offset as nat, cont_id),
            blocks_within(out@, bound),
            calls_fit(fs, s, out@),
            forall|e: Expansion, cap: nat| #[trigger] e.blocks_pot(out@, cap) == e.blocks_pot(callee_blocks@.take(bi as int), cap),
        decreases callee_blocks.len() - bi,
    {
        assert(block_within(callee_blocks@[bi as int], kk));
        let nb = remap_block(&callee_blocks[bi], bi == 0, callee_args, call_args, call_dest, ssa_offset, block_offset, cont_id,
            Ghost(kk), Ghost(bound), Ghost(fs), Ghost(s));
        let ghost before = out@;
        out.push(nb);
        proof {
            assert forall|i: int| 0 <= i < bi + 1 implies block_remapped(#[trigger] out@[i], callee_blocks@[i], i == 0, callee_args@, call_args@,
                call_dest, ssa_offset as nat, block_offset as nat, cont_id) by {
                if i < bi {
                    assert(out@[i] == before[i]);
                }
            }
            assert forall|j: int| 0 <= j < out@.len() implies block_within(#[trigger] out@[j], bound) by {
                if j < before.len() {
                    assert(block_within(before[j], bound));
                }
            }
            assert forall|b: int, i: int| 0 <= b < out@.len() && 0 <= i < out@[b].instructions@.len()
                implies #[trigger] call_fits(fs, s, out@[b].instructions@[i]) by {
                if b < before.len() {
                    assert(call_fits(fs, s, before[b].instructions@[i]));
                }
            }
            assert forall|e: Expansion, cap: nat| #[trigger] e.blocks_pot(out@, cap) == e.blocks_pot(callee_blocks@.take(bi + 1), cap) by {
                assert(out@.drop_last() =~= before);
                assert(callee_blocks@.take(bi + 1).drop_last() =~= callee_blocks@.take(bi as int));
                assert(e.blocks_pot(before, cap) == e.blocks_pot(callee_blocks@.take(bi as int), cap));
                assert(e.insts_pot(nb.instructions@, cap) == e.insts_pot(callee_blocks@[bi as int].instructions@, cap));
            }
        }
        bi = bi + 1;
    }
    assert(callee_blocks@.take(callee_blocks@.len() as int) =~= callee_blocks@);
    out
}

/// A copy of the body that calls to `name` receive: its parameters'
/// variables and its blocks.
struct Body {
    name: String,
    arg_vars: Vec<usize>,
    blocks: Vec<BasicBlock>,
}

/// Whether `b` is a faithful copy of the body of the last function named
/// like it, within `k`.
spec fn body_ok(fs: Seq<MirFunction>, k: nat, b: Body) -> bool {
    &&& 0 <= last_index(fs, b.name@) < fs.len()
    &&& b.arg_vars@.len() == last_fn(fs, b.name@).args@.len()
    &&& forall|i: int| 0 <= i < b.arg_vars@.len() ==> #[trigger] b.arg_vars@[i] <= k
    &&& blocks_like(last_fn(fs, b.name@).blocks@, b.blocks@)
    &&& blocks_copied(last_fn(fs, b.name@).blocks@, b.blocks@)
    &&& forall|i: int| 0 <= i < b.arg_vars@.len() ==> #[trigger] b.arg_vars@[i] == last_fn(fs, b.name@).args@[i].ssa_var
    &&& blocks_within(b.blocks@, k)
}

/// Whether `bodies` holds a faithful copy of the body of each name of `s`,
/// and nothing else.
spec fn bodies_ok(fs: Seq<MirFunction>, s: Set<Seq<char>>, k: nat, bodies: Seq<Body>) -> bool {
    &&& forall|i: int| 0 <= i < bodies.len() ==> body_ok(fs, k, #[trigger] bodies[i]) && s.contains(bodies[i].name@)
    &&& forall|n: Seq<char>| s.contains(n) ==> exists|i: int| 0 <= i < bodies.len() && (#[trigger] bodies[i]).name@ == n
}

fn find_body(bodies: &Vec<Body>, name: &String) -> (r: Option<usize>)
    ensures
        match r {
            Some(i) => i < bodies@.len() && bodies@[i as int].name@ == name@,
            None => forall|i: int| 0 <= i < bodies@.len() ==> (#[trigger] bodies@[i]).name@ != name@,
        },
{
    let mut i: usize = 0;
    while i < bodies.len()
        invariant
            i <= bodies@.len(),
            forall|j: int| 0 <= j < i ==> (#[trigger] bodies@[j]).name@ != name@,
        decreases bodies.len() - i,
    {
        if bodies[i].name == *name {
            return Some(i);
        }
        i = i + 1;
    }
    None
}

fn is_loop_lowered(blocks: &Vec<BasicBlock>) -> (r: bool)
    ensures
        r == loop_lowered(blocks@),
{
    let mut i: usize = 0;
    while i < blocks.len()
        invariant
            i <= blocks@.len(),
            forall|j: int| 0 <= j < i ==> !jumps_back(#[trigger] blocks@[j]),
        decreases blocks.len() - i,
    {
        if let MirTerminator::Branch(t) = blocks[i].terminator {
            if t < blocks[i].id {
                assert(jumps_back(blocks@[i as int]));
                return true;
            }
        }
        i = i + 1;
    }
    false
}

proof fn lemma_like_loop_lowered(a: Seq<BasicBlock>, b: Seq<BasicBlock>)
    requires
        blocks_like(a, b),
    ensures
        loop_lowered(a) == loop_lowered(b),
{
    if loop_lowered(a) {
        let i = choose|i: int| 0 <= i < a.len() && jumps_back(#[trigger] a[i]);
        assert(b[i].id == a[i].id);
        assert(jumps_back(b[i]));
    }
    if loop_lowered(b) {
        let i = choose|i: int| 0 <= i < b.len() && jumps_back(#[trigger] b[i]);
        assert(b[i].id == a[i].id);
        assert(jumps_back(a[i]));
    }
}

/// The first call of the list that is expanded, with the body it receives.
fn first_expanded(
    insts: &Vec<MirInstruction>,
    cname: &String,
    bodies: &Vec<Body>,
    Ghost(fs): Ghost<Seq<MirFunction>>,
    Ghost(s): Ghost<Set<Seq<char>>>,
    Ghost(k): Ghost<nat>,
) -> (r: Option<(usize, usize)>)
    requires
        bodies_ok(fs, s, k, bodies@),
    ensures
        match r {
            Some((p, j)) => p < insts@.len() && j < bodies@.len()
                && expands(fs, s, cname@, insts@[p as int])
                && call_name(insts@[p as int]) == Some(bodies@[j as int].name@)
                && forall|q: int| 0 <= q < p ==> !expands(fs, s, cname@, #[trigger] insts@[q]),
            None => forall|q: int| 0 <= q < insts@.len() ==> !expands(fs, s, cname@, #[trigger] insts@[q]),
        },
{
    let mut i: usize = 0;
    while i < insts.len()
        invariant
            i <= insts@.len(),
            bodies_ok(fs, s, k, bodies@),
            forall|q: int| 0 <= q < i ==> !expands(fs, s, cname@, #[trigger] insts@[q]),
        decreases insts.len() - i,
    {
        if let MirInstruction::Call { name, .. } = &insts[i] {
            match find_body(bodies, name) {
                Some(j) => {
                    assert(body_ok(fs, k, bodies@[j as int]));
                    proof {
                        lemma_like_loop_lowered(last_fn(fs, name@).blocks@, bodies@[j as int].blocks@);
                    }
                    if *name != *cname || is_loop_lowered(&bodies[j].blocks) {
                        return Some((i, j));
                    }
                },
                None => {
                    assert(!s.contains(name@));
                },
            }
        }
        i = i + 1;
    }
    None
}

/// The variable an instruction defines, among those the inliner steps over.
pub open spec fn inline_dest(inst: MirInstruction) -> Option<usize> {
    match inst {
        MirInstruction::Assign { dest, .. } => Some(dest),
        MirInstruction::BinaryOperation { dest, .. } => Some(dest),
        MirInstruction::Call { dest, .. } => Some(dest),
        MirInstruction::Tuple { dest, .. } => Some(dest),
        MirInstruction::Index { dest, .. } => Some(dest),
        MirInstruction::Alloc { dest, .. } => Some(dest),
        MirInstruction::GlobalAlloc { dest, .. } => Some(dest),
        MirInstruction::PointerOffset { dest, .. } => Some(dest),
        MirInstruction::Load { dest, .. } => Some(dest),
        MirInstruction::Promote { dest, .. } => Some(dest),
        MirInstruction::BitCast { dest, .. } => Some(dest),
        MirInstruction::ConstantTableLoad { dest, .. } => Some(dest),
        _ => None,
    }
}

/// The largest variable the arguments bind or the instructions define (0
/// when there is none): above it, the variables of an inlined body are free.
fn max_ssa_of(args: &Vec<MirArgument>, blocks: &Vec<BasicBlock>) -> (r: usize)
    ensures
        forall|i: int| 0 <= i < args@.len() ==> (#[trigger] args@[i]).ssa_var <= r,
        forall|b: int, i: int| 0 <= b < blocks@.len() && 0 <= i < blocks@[b].instructions@.len()
            && #[trigger] inline_dest(blocks@[b].instructions@[i]) is Some ==> inline_dest(blocks@[b].instructions@[i])->0 <= r,
        forall|k: nat| #![trigger blocks_within(blocks@, k), args_within(args@, k)]
            blocks_within(blocks@, k) && args_within(args@, k) ==> r <= k,
{
    let mut m: usize = 0;
    let mut a: usize = 0;
    while a < args.len()
        invariant
            a <= args@.len(),
            forall|i: int| 0 <= i < a ==> (#[trigger] args@[i]).ssa_var <= m,
            forall|k: nat| #![trigger args_within(args@, k)] args_within(args@, k) ==> m <= k,
        decreases args.len() - a,
    {
        if args[a].ssa_var > m {
            m = args[a].ssa_var;
        }
        a = a + 1;
    }
    let mut b: usize = 0;
    while b < blocks.len()
        invariant
            b <= blocks@.len(),
            forall|i: int| 0 <= i < args@.len() ==> (#[trigger] args@[i]).ssa_var <= m,
            forall|bb: int, i: int| 0 <= bb < b && 0 <= i < blocks@[bb].instructions@.len()
                && #[trigger] inline_dest(blocks@[bb].instructions@[i]) is Some ==> inline_dest(blocks@[bb].instructions@[i])->0 <= m,
            forall|k: nat| #![trigger blocks_within(blocks@, k), args_within(args@, k)]
                blocks_within(blocks@, k) && args_within(args@, k) ==> m <= k,
        decreases blocks.len() - b,
    {
        let insts = &blocks[b].instructions;
        let mut i: usize = 0;
        while i < insts.len()
            invariant
                b < blocks@.len(),
                *insts == blocks@[b as int].instructions,
                i <= insts@.len(),
                forall|i: int| 0 <= i < args@.len() ==> (#[trigger] args@[i]).ssa_var <= m,
                forall|bb: int, ii: int| 0 <= bb < b && 0 <= ii < blocks@[bb].instructions@.len()
                    && #[trigger] inline_dest(blocks@[bb].instructions@[ii]) is Some ==> inline_dest(blocks@[bb].instructions@[ii])->0 <= m,
                forall|ii: int| 0 <= ii < i && #[trigger] inline_dest(insts@[ii]) is Some ==> inline_dest(insts@[ii])->0 <= m,
                forall|k: nat| #![trigger blocks_within(blocks@, k), args_within(args@, k)]
                    blocks_within(blocks@, k) && args_within(args@, k) ==> m <= k,
            decreases insts.len() - i,
        {
            let d: Option<usize> = match &insts[i] {
                MirInstruction::Assign { dest, .. } => Some(*dest),
                MirInstruction::BinaryOperation { dest, .. } => Some(*dest),
                MirInstruction::Call { dest, .. } => Some(*dest),
                MirInstruction::Tuple { dest, .. } => Some(*dest),
                MirInstruction::Index { dest, .. } => Some(*dest),
                MirInstruction::Alloc { dest, .. } => Some(*dest),
                MirInstruction::GlobalAlloc { dest, .. } => Some(*dest),
                MirInstruction::PointerOffset { dest, .. } => Some(*dest),
                MirInstruction::Load { dest, .. } => Some(*dest),
                MirInstruction::Promote { dest, .. } => Some(*dest),
                MirInstruction::BitCast { dest, .. } => Some(*dest),
                MirInstruction::ConstantTableLoad { dest, .. } => Some(*dest),
                _ => None,
            };
            assert(d == inline_dest(insts@[i as int]));
            if let Some(x) = d {
                if x > m {
                    proof {
                        assert forall|k: nat| #![trigger blocks_within(blocks@, k), args_within(args@, k)]
                            blocks_within(blocks@, k) && args_within(args@, k) implies x <= k by {
                            assert(block_within(blocks@[b as int], k));
                            assert(inst_within(insts@[i as int], k));
                        }
                    }
                    m = x;
                }
            }
            i = i + 1;
        }
        b = b + 1;
    }
    m
}

/// The largest block number of the list (0 when it is empty).
fn max_block_id(blocks: &Vec<BasicBlock>) -> (r: usize)
    ensures
        forall|i: int| 0 <= i < blocks@.len() ==> (#[trigger] blocks@[i]).id <= r,
        forall|k: nat| #[trigger] blocks_within(blocks@, k) ==> r <= k,
{
    let mut m: usize = 0;
    let mut i: usize = 0;
    while i < blocks.len()
        invariant
            i <= blocks@.len(),
            forall|j: int| 0 <= j < i ==> (#[trigger] blocks@[j]).id <= m,
            forall|k: nat| #[trigger] blocks_within(blocks@, k) ==> m <= k,
        decreases blocks.len() - i,
    {
        if blocks[i].id > m {
            proof {
                assert forall|k: nat| #[trigger] blocks_within(blocks@, k) implies blocks@[i as int].id <= k by {
                    assert(block_within(blocks@[i as int], k));
                }
            }
            m = blocks[i].id;
        }
        i = i + 1;
    }
    m
}

proof fn lemma_like_calls_fit(fs: Seq<MirFunction>, s: Set<Seq<char>>, a: Seq<BasicBlock>, b: Seq<BasicBlock>)
    requires
        blocks_like(a, b),
        calls_fit(fs, s, a),
    ensures
        calls_fit(fs, s, b),
{
    assert forall|bb: int, i: int| 0 <= bb < b.len() && 0 <= i < b[bb].instructions@.len()
        implies #[trigger] call_fits(fs, s, b[bb].instructions@[i]) by {
        assert(insts_like(a[bb].instructions@, b[bb].instructions@));
        assert(call_name(b[bb].instructions@[i]) == call_name(a[bb].instructions@[i]));
        assert(call_fits(fs, s, a[bb].instructions@[i]));
    }
}

proof fn lemma_mul_mono(a: nat, b: nat, c: nat)
    requires
        a <= b,
    ensures
        a * c <= b * c,
{
    assert(a * c <= b * c) by (nonlinear_arith)
        requires
            a <= b,
    ;
}

proof fn lemma_mul_succ(a: nat, c: nat)
    ensures
        a * c + c == (a + 1) * c,
{
    assert(a * c + c == (a + 1) * c) by (nonlinear_arith);
}

/// Expanding the first expanded call of a block trades the block and the
/// call for the callee's blocks and the rest of the block: one less.
proof fn lemma_step_pot(
    e: Expansion,
    bs: Seq<BasicBlock>,
    idx: int,
    p: int,
    top: nat,
    r: Seq<BasicBlock>,
    cont: BasicBlock,
    n: Seq<char>,
)
    requires
        0 <= idx < bs.len(),
        0 <= p < bs[idx].instructions@.len(),
        ranked(e.fs, e.s, e.cname, e.rank),
        forall|m: Seq<char>| e.s.contains(m) ==> #[trigger] (e.rank)(m) < top,
        expands(e.fs, e.s, e.cname, bs[idx].instructions@[p]),
        call_name(bs[idx].instructions@[p]) == Some(n),
        forall|q: int| 0 <= q < p ==> !expands(e.fs, e.s, e.cname, #[trigger] bs[idx].instructions@[q]),
        cont.instructions@ == bs[idx].instructions@.skip(p + 1),
        e.blocks_pot(r, top) == e.blocks_pot(last_fn(e.fs, n).blocks@, top),
    ensures
        e.blocks_pot(r + seq![cont] + bs.skip(idx + 1), top) + 1 == e.blocks_pot(bs.skip(idx), top),
{
    let cur = bs[idx];
    let insts = cur.instructions@;
    assert(bs.skip(idx) =~= seq![cur] + bs.skip(idx + 1));
    lemma_blocks_pot_add(e, seq![cur], bs.skip(idx + 1), top);
    assert(seq![cur].drop_last() =~= Seq::<BasicBlock>::empty());
    assert(e.blocks_pot(Seq::<BasicBlock>::empty(), top) == 0);
    assert(seq![cur].last() == cur);
    assert(e.blocks_pot(seq![cur], top) == 1 + e.insts_pot(insts, top));
    assert(insts =~= insts.take(p) + seq![insts[p]] + insts.skip(p + 1));
    lemma_insts_pot_add(e, insts.take(p) + seq![insts[p]], insts.skip(p + 1), top);
    lemma_insts_pot_add(e, insts.take(p), seq![insts[p]], top);
    assert forall|q: int| 0 <= q < insts.take(p).len() implies !expands(e.fs, e.s, e.cname, #[trigger] insts.take(p)[q]) by {
        assert(insts.take(p)[q] == insts[q]);
    }
    lemma_insts_pot_zero(e, insts.take(p), top);
    assert(seq![insts[p]].drop_last() =~= Seq::<MirInstruction>::empty());
    assert(e.insts_pot(Seq::<MirInstruction>::empty(), top) == 0);
    assert(seq![insts[p]].last() == insts[p]);
    assert(e.insts_pot(seq![insts[p]], top) == e.inst_pot(insts[p], top));
    assert(e.s.contains(n));
    assert((e.rank)(n) < top);
    assert(e.inst_pot(insts[p], top) == e.body_pot(n));
    let body = last_fn(e.fs, n).blocks@;
    assert forall|b: int, i: int| 0 <= b < body.len() && 0 <= i < body[b].instructions@.len()
        && #[trigger] expands(e.fs, e.s, e.cname, body[b].instructions@[i])
        implies (e.rank)(call_name(body[b].instructions@[i])->0) < (e.rank)(n) by {
    }
    lemma_blocks_cap(e, body, (e.rank)(n), top);
    lemma_blocks_pot_add(e, r + seq![cont], bs.skip(idx + 1), top);
    lemma_blocks_pot_add(e, r, seq![cont], top);
    assert(seq![cont].drop_last() =~= Seq::<BasicBlock>::empty());
    assert(seq![cont].last() == cont);
    assert(e.blocks_pot(seq![cont], top) == 1 + e.insts_pot(cont.instructions@, top));
}

/// Whether expansion inside `cname` ends, with `rank` as witness, and the
/// numbers of blocks and variables it creates stay below `usize::MAX`, every
/// number in the program being at most `kk` and every inlined body having at
/// most `ll` blocks.
pub open spec fn fits_with(
    fs: Seq<MirFunction>,
    s: Set<Seq<char>>,
    cname: Seq<char>,
    blocks: Seq<BasicBlock>,
    kk: nat,
    ll: nat,
    rank: spec_fn(Seq<char>) -> nat,
    top: nat,
) -> bool {
    &&& ranked(fs, s, cname, rank)
    &&& forall|n: Seq<char>| s.contains(n) ==> #[trigger] rank(n) < top
    &&& kk + (Expansion { fs, s, cname, rank }.blocks_pot(blocks, top) + 1) * (kk + ll + 1) <= usize::MAX
}

pub open spec fn expansion_fits(fs: Seq<MirFunction>, s: Set<Seq<char>>, cname: Seq<char>, blocks: Seq<BasicBlock>, kk: nat, ll: nat) -> bool {
    exists|rank: spec_fn(Seq<char>) -> nat, top: nat| #[trigger] fits_with(fs, s, cname, blocks, kk, ll, rank, top)
}

/// Expands, block after block, the first expanded call of each block: the
/// block is cut at the call, the callee's blocks follow it, then a block
/// with the rest; the callee's blocks are scanned in their turn.
#[verifier::spinoff_prover]
#[verifier::rlimit(80)]
fn inline_into(
    caller: MirFunction,
    bodies: &Vec<Body>,
    Ghost(fs): Ghost<Seq<MirFunction>>,
    Ghost(s): Ghost<Set<Seq<char>>>,
    Ghost(kk): Ghost<nat>,
    Ghost(ll): Ghost<nat>,
) -> (r: MirFunction)
    requires
        bodies_ok(fs, s, kk, bodies@),
        forall|n: Seq<char>| s.contains(n) ==> #[trigger] last_fn(fs, n).blocks@.len() <= ll,
        forall|n: Seq<char>| s.contains(n) ==> calls_fit(fs, s, #[trigger] last_fn(fs, n).blocks@),
        blocks_within(caller.blocks@, kk),
        args_within(caller.args@, kk),
        calls_fit(fs, s, caller.blocks@),
        expansion_fits(fs, s, caller.name@, caller.blocks@, kk, ll),
    ensures
        r.name == caller.name,
        r.args == caller.args,
        r.return_type == caller.return_type,
        r.is_pure_data_leaf == caller.is_pure_data_leaf,
        r.diminishing == caller.diminishing,
        r.memo_cache_size == caller.memo_cache_size,
        no_expansion(fs, s, caller.name@, r.blocks@),
        no_expansion(fs, s, caller.name@, caller.blocks@) ==> r == caller,
        inlined_by_steps(fs, s, caller.blocks@, r.blocks@),
{
    let ghost c0 = caller;
    let ghost mut trace: Seq<Seq<BasicBlock>> = seq![caller.blocks@];
    let ghost (rank, top) = choose|rank: spec_fn(Seq<char>) -> nat, top: nat| #[trigger] fits_with(fs, s, caller.name@, caller.blocks@, kk, ll, rank, top);
    let ghost e = Expansion { fs, s, cname: caller.name@, rank };
    let ghost m0 = e.blocks_pot(caller.blocks@, top);
    let ghost c: nat = kk + ll + 1;
    let ghost mut bc: nat = kk;
    let mut caller = caller;
    let mut idx: usize = 0;
    assert(caller.blocks@.skip(0) =~= caller.blocks@);
    while idx < caller.blocks.len()
        invariant
            idx <= caller.blocks@.len(),
            caller.name == c0.name,
            caller.args == c0.args,
            caller.return_type == c0.return_type,
            caller.is_pure_data_leaf == c0.is_pure_data_leaf,
            caller.diminishing == c0.diminishing,
            caller.memo_cache_size == c0.memo_cache_size,
            bodies_ok(fs, s, kk, bodies@),
            forall|n: Seq<char>| s.contains(n) ==> #[trigger] last_fn(fs, n).blocks@.len() <= ll,
            forall|n: Seq<char>| s.contains(n) ==> calls_fit(fs, s, #[trigger] last_fn(fs, n).blocks@),
            fits_with(fs, s, c0.name@, c0.blocks@, kk, ll, rank, top),
            e == (Expansion { fs, s, cname: c0.name@, rank }),
            m0 == e.blocks_pot(c0.blocks@, top),
            c == kk + ll + 1,
            kk <= bc,
            blocks_within(caller.blocks@, bc),
            args_within(caller.args@, kk),
            calls_fit(fs, s, caller.blocks@),
            no_expansion(fs, s, c0.name@, caller.blocks@.take(idx as int)),
            e.blocks_pot(caller.blocks@.skip(idx as int), top) <= m0,
            bc <= kk + (m0 - e.blocks_pot(caller.blocks@.skip(idx as int), top)) * c,
            no_expansion(fs, s, c0.name@, c0.blocks@) ==> caller == c0,
            inline_trace(fs, s, trace, c0.blocks@, caller.blocks@),
        decreases e.blocks_pot(caller.blocks@.skip(idx as int), top),
    {
        let ghost bs = caller.blocks@;
        let ghost mm = e.blocks_pot(bs.skip(idx as int), top);
        proof {
            assert(bs.skip(idx as int) =~= seq![bs[idx as int]] + bs.skip(idx + 1));
            lemma_blocks_pot_add(e, seq![bs[idx as int]], bs.skip(idx + 1), top);
            assert(seq![bs[idx as int]].drop_last() =~= Seq::<BasicBlock>::empty());
        }
        let found = first_expanded(&caller.blocks[idx].instructions, &caller.name, bodies, Ghost(fs), Ghost(s), Ghost(kk));
        match found {
            None => {
                proof {
                    assert(bs.take(idx + 1) =~= bs.take(idx as int).push(bs[idx as int]));
                    assert forall|b: int, i: int| 0 <= b < bs.take(idx + 1).len() && 0 <= i < bs.take(idx + 1)[b].instructions@.len()
                        implies !expands(fs, s, c0.name@, #[trigger] bs.take(idx + 1)[b].instructions@[i]) by {
                        if b < idx {
                            assert(bs.take(idx + 1)[b] == bs.take(idx as int)[b]);
                        }
                    }
                    lemma_mul_mono((m0 - mm) as nat, (m0 - e.blocks_pot(bs.skip(idx + 1), top)) as nat, c);
                }
                idx = idx + 1;
            },
            Some((p, j)) => {
                let ghost cur0 = bs[idx as int];
                let ghost insts0 = cur0.instructions@;
                let ghost n = bodies@[j as int].name@;
                proof {
                    if no_expansion(fs, s, c0.name@, c0.blocks@) {
                        assert(!expands(fs, s, c0.name@, c0.blocks@[idx as int].instructions@[p as int]));
                    }
                    assert(block_within(cur0, bc));
                    assert(inst_within(insts0[p as int], bc));
                    assert(call_fits(fs, s, insts0[p as int]));
                    assert(body_ok(fs, kk, bodies@[j as int]));
                    assert(s.contains(n));
                }
                let mut cur = caller.blocks.remove(idx);
                let call_inst = cur.instructions.remove(p);
                let ghost call_g = call_inst;
                let ghost cid = cur.id;
                let ghost cterm = cur.terminator;
                assert(call_g == insts0[p as int]);
                assert(cid == cur0.id && cterm == cur0.terminator);
                caller.blocks.insert(idx, cur);
                proof {
                    assert(caller.blocks@ =~= bs.update(idx as int, caller.blocks@[idx as int]));
                    let cb = caller.blocks@[idx as int];
                    assert forall|i: int| 0 <= i < cb.instructions@.len() implies inst_within(#[trigger] cb.instructions@[i], bc) by {
                        if i < p {
                            assert(cb.instructions@[i] == insts0[i]);
                        } else {
                            assert(cb.instructions@[i] == insts0[i + 1]);
                        }
                    }
                    assert(block_within(cb, bc));
                    assert forall|b: int| 0 <= b < caller.blocks@.len() implies block_within(#[trigger] caller.blocks@[b], bc) by {
                        if b != idx {
                            assert(caller.blocks@[b] == bs[b]);
                        }
                    }
                    assert forall|i: int| 0 <= i < caller.args@.len() implies (#[trigger] caller.args@[i]).ssa_var <= bc by {}
                    assert(blocks_within(caller.blocks@, bc));
                    assert(args_within(caller.args@, bc));
                }
                proof {
                    assert(mm >= 1);
                    lemma_mul_succ((m0 - mm) as nat, c);
                    lemma_mul_mono((m0 - mm + 1) as nat, m0, c);
                    lemma_mul_mono(m0, m0 + 1, c);
                    assert(bc + c <= usize::MAX);
                    lemma_like_calls_fit(fs, s, last_fn(fs, n).blocks@, bodies@[j as int].blocks@);
                }
                let ssa_offset = max_ssa_of(&caller.args, &caller.blocks) + 1;
                let block_offset = max_block_id(&caller.blocks) + 1;
                let callee = &bodies[j];
                let continuation_id = block_offset + callee.blocks.len();
                let mut cur = caller.blocks.remove(idx);
                let mut rest = caller.blocks.split_off(idx);
                let tail = cur.instructions.split_off(p);
                proof {
                    assert(rest@ =~= bs.skip(idx + 1));
                    assert(caller.blocks@ =~= bs.take(idx as int));
                    assert(cur.instructions@ =~= insts0.take(p as int));
                    assert(tail@ =~= insts0.skip(p + 1));
                }
                if let MirInstruction::Call { dest, args, .. } = call_inst {
                    proof {
                        assert(ops_within(args@, bc));
                        assert forall|i: int| 0 <= i < args@.len() implies op_within(#[trigger] args@[i], bc + c) by {
                            assert(op_within(args@[i], bc));
                        }
                    }
                    let inlined = remap_callee(&callee.arg_vars, &callee.blocks, &args, dest, ssa_offset, block_offset,
                        continuation_id, Ghost(kk), Ghost(bc + c), Ghost(fs), Ghost(s));
                    let entry = inlined[0].id;
                    let prefix = BasicBlock { id: cur.id, instructions: cur.instructions, terminator: MirTerminator::Branch(entry) };
                    let cont = BasicBlock { id: continuation_id, instructions: tail, terminator: cur.terminator };
                    let ghost r_blocks = inlined@;
                    let mut inlined = inlined;
                    caller.blocks.push(prefix);
                    caller.blocks.append(&mut inlined);
                    caller.blocks.push(cont);
                    caller.blocks.append(&mut rest);
                    proof {
                        let nb = caller.blocks@;
                        assert(nb =~= bs.take(idx as int) + seq![prefix] + r_blocks + seq![cont] + bs.skip(idx + 1));
                        assert(nb.skip(idx + 1) =~= r_blocks + seq![cont] + bs.skip(idx + 1));
                        assert(nb.take(idx + 1) =~= bs.take(idx as int).push(prefix));
                        lemma_blocks_like_pot(e, last_fn(fs, n).blocks@, bodies@[j as int].blocks@, top);
                        lemma_step_pot(e, bs, idx as int, p as int, top, r_blocks, cont, n);
                        bc = bc + c;
                        let body = bodies@[j as int].blocks@;
                        let m = body.len() as int;
                        let fname = call_name(bs[idx as int].instructions@[p as int])->0;
                        assert(fname == n);
                        let params = arg_ssa_vars(last_fn(fs, fname).args@);
                        assert(params =~= bodies@[j as int].arg_vars@);
                        assert(nb.subrange(0, idx as int) =~= bs.subrange(0, idx as int));
                        assert(nb[idx as int] == prefix);
                        assert forall|i: int| 0 <= i < m implies #[trigger] nb[idx + 1 + i] == r_blocks[i] by {}
                        assert(nb[idx + 1 + m] == cont);
                        assert(nb.subrange(idx + 2 + m, nb.len() as int) =~= bs.subrange(idx + 1, bs.len() as int));
                        assert(tail@ =~= insts0.subrange(p + 1, insts0.len() as int));
                        assert(expanded_at(bs, nb, idx as int, p as int, params, body, ssa_offset as nat, block_offset as nat));
                        assert(inline_step(fs, s, bs, nb));
                        trace = trace.push(nb);
                        assert(trace.drop_last().last() == bs);
                        assert forall|i: int| 0 <= i < trace.len() - 1 implies #[trigger] inline_step(fs, s, trace[i], trace[i + 1]) by {
                            if i < trace.len() - 2 {
                                assert(trace[i] == trace.drop_last()[i]);
                                assert(trace[i + 1] == trace.drop_last()[i + 1]);
                            }
                        }
                    }
                } else {
                    proof {
                        assert(false);
                    }
                }
                idx = idx + 1;
            },
        }
    }
    assert(caller.blocks@.take(caller.blocks@.len() as int) =~= caller.blocks@);
    assert(inline_trace(fs, s, trace, c0.blocks@, caller.blocks@));
    caller
}

/// `after` is `before` with the call at position `p` of block `idx`
/// expanded into the blocks `body` of its callee (whose parameters are the
/// variables `params`): the block keeps the instructions before the call
/// and jumps to the callee's entry; the callee's blocks follow, moved up by
/// `soff` (variables) and `boff` (numbers) with each return copying to the
/// call's destination (`block_remapped`); then a new block `boff + |body|`
/// with the instructions after the call and the block's terminator; then
/// the blocks after `idx`.
pub open spec fn expanded_at(
    before: Seq<BasicBlock>,
    after: Seq<BasicBlock>,
    idx: int,
    p: int,
    params: Seq<usize>,
    body: Seq<BasicBlock>,
    soff: nat,
    boff: nat,
) -> bool {
    let cur = before[idx];
    let call = cur.instructions@[p];
    let m = body.len() as int;
    let cont_id = (boff + m) as usize;
    &&& 0 <= idx < before.len()
    &&& 0 <= p < cur.instructions@.len()
    &&& m >= 1
    &&& after.len() == before.len() + m + 1
    &&& after.subrange(0, idx) == before.subrange(0, idx)
    &&& after[idx].id == cur.id
    &&& after[idx].instructions@ == cur.instructions@.subrange(0, p)
    &&& after[idx].terminator == MirTerminator::Branch(after[idx + 1].id)
    &&& call matches MirInstruction::Call { dest, args, .. }
        && forall|i: int| 0 <= i < m ==> block_remapped(#[trigger] after[idx + 1 + i], body[i], i == 0, params, args@, dest, soff, boff, cont_id)
    &&& after[idx + 1 + m].id == cont_id
    &&& after[idx + 1 + m].instructions@ == cur.instructions@.subrange(p + 1, cur.instructions@.len() as int)
    &&& after[idx + 1 + m].terminator == cur.terminator
    &&& after.subrange(idx + 2 + m, after.len() as int) == before.subrange(idx + 1, before.len() as int)
}

/// One inlining step: a call to an inlineable function of `fs` is expanded
/// into a copy of the callee's blocks (`expanded_at`).
pub open spec fn inline_step(fs: Seq<MirFunction>, s: Set<Seq<char>>, before: Seq<BasicBlock>, after: Seq<BasicBlock>) -> bool {
    exists|idx: int, p: int, body: Seq<BasicBlock>, soff: nat, boff: nat|
        #[trigger] expanded_at(before, after, idx, p, arg_ssa_vars(last_fn(fs, call_name(before[idx].instructions@[p])->0).args@), body, soff, boff)
        && call_name(before[idx].instructions@[p]) is Some
        && s.contains(call_name(before[idx].instructions@[p])->0)
        && blocks_copied(last_fn(fs, call_name(before[idx].instructions@[p])->0).blocks@, body)
}

/// The SSA variables of a list of parameters.
pub open spec fn arg_ssa_vars(args: Seq<MirArgument>) -> Seq<usize> {
    args.map_values(|a: MirArgument| a.ssa_var)
}

/// `trace` leads from `start` to `end` by inlining steps.
pub open spec fn inline_trace(fs: Seq<MirFunction>, s: Set<Seq<char>>, trace: Seq<Seq<BasicBlock>>, start: Seq<BasicBlock>, end: Seq<BasicBlock>) -> bool {
    &&& trace.len() >= 1
    &&& trace[0] == start
    &&& trace.last() == end
    &&& forall|i: int| 0 <= i < trace.len() - 1 ==> #[trigger] inline_step(fs, s, trace[i], trace[i + 1])
}

/// `end` comes from `start` by a sequence of inlining steps.
pub open spec fn inlined_by_steps(fs: Seq<MirFunction>, s: Set<Seq<char>>, start: Seq<BasicBlock>, end: Seq<BasicBlock>) -> bool {
    exists|trace: Seq<Seq<BasicBlock>>| #[trigger] inline_trace(fs, s, trace, start, end)
}

/// The names whose functions may be inlined.
pub open spec fn inlineable_set(fs: Seq<MirFunction>) -> Set<Seq<char>> {
    Set::new(|n: Seq<char>| inlineable(fs, n))
}

/// Whether the program can be inlined: every number in it is at most `kk`,
/// no function has more than `ll` blocks, every call to an inlineable
/// function passes enough arguments to a body that has a block, and inside
/// every function the expansion of calls ends, its numbers fitting in a
/// `usize`.
pub open spec fn program_fits(fs: Seq<MirFunction>, kk: nat, ll: nat) -> bool {
    &&& forall|k: int| 0 <= k < fs.len() ==> blocks_within(#[trigger] fs[k].blocks@, kk)
    &&& forall|k: int| 0 <= k < fs.len() ==> args_within(#[trigger] fs[k].args@, kk)
    &&& forall|k: int| 0 <= k < fs.len() ==> (#[trigger] fs[k]).blocks@.len() <= ll
    &&& forall|k: int| 0 <= k < fs.len() ==> calls_fit(fs, inlineable_set(fs), #[trigger] fs[k].blocks@)
    &&& forall|k: int| 0 <= k < fs.len() ==> expansion_fits(fs, inlineable_set(fs), (#[trigger] fs[k]).name@, fs[k].blocks@, kk, ll)
}

pub open spec fn inline_fits(fs: Seq<MirFunction>) -> bool {
    exists|kk: nat, ll: nat| #[trigger] program_fits(fs, kk, ll)
}

proof fn lemma_last_index(fs: Seq<MirFunction>, n: Seq<char>, k: int)
    requires
        0 <= k < fs.len(),
        fs[k].name@ == n,
    ensures
        k <= last_index(fs, n) < fs.len(),
        fs[last_index(fs, n)].name@ == n,
    decreases fs.len(),
{
    if fs.last().name@ != n {
        assert(k < fs.len() - 1);
        assert(fs.drop_last()[k] == fs[k]);
        lemma_last_index(fs.drop_last(), n, k);
    }
}

proof fn lemma_last_index_exact(fs: Seq<MirFunction>, n: Seq<char>, k: int)
    requires
        0 <= k < fs.len(),
        fs[k].name@ == n,
        forall|j: int| k < j < fs.len() ==> (#[trigger] fs[j]).name@ != n,
    ensures
        last_index(fs, n) == k,
    decreases fs.len(),
{
    if k < fs.len() - 1 {
        assert(fs.last().name@ != n);
        assert(fs.drop_last()[k] == fs[k]);
        assert forall|j: int| k < j < fs.drop_last().len() implies (#[trigger] fs.drop_last()[j]).name@ != n by {
            assert(fs.drop_last()[j] == fs[j]);
        }
        lemma_last_index_exact(fs.drop_last(), n, k);
    }
}

proof fn lemma_inlineable_named(fs: Seq<MirFunction>, n: Seq<char>)
    requires
        inlineable(fs, n),
    ensures
        0 <= last_index(fs, n) < fs.len(),
        last_fn(fs, n).name@ == n,
{
    let w = choose|w: Seq<Seq<char>>| #[trigger] valid_order(fs, w) && w.contains(n);
    let t = choose|t: int| 0 <= t < w.len() && w[t] == n;
    assert(admitted_at(fs, w, t));
    let k = choose|k: int| 0 <= k < fs.len() && (#[trigger] fs[k]).name@ == w[t]
        && admissible(fs, fs[k], w.take(t).to_set());
    lemma_last_index(fs, n, k);
}

fn last_named(fs: &Vec<MirFunction>, n: &String) -> (r: usize)
    requires
        inlineable(fs@, n@),
    ensures
        r as int == last_index(fs@, n@),
        r < fs@.len(),
        fs@[r as int].name@ == n@,
{
    proof {
        lemma_inlineable_named(fs@, n@);
    }
    let mut k: usize = fs.len();
    while k > 0
        invariant
            k <= fs@.len(),
            0 <= last_index(fs@, n@) < fs@.len(),
            fs@[last_index(fs@, n@)].name@ == n@,
            forall|j: int| k <= j < fs@.len() ==> (#[trigger] fs@[j]).name@ != n@,
        decreases k,
    {
        if fs[k - 1].name == *n {
            proof {
                lemma_last_index_exact(fs@, n@, k - 1);
            }
            return k - 1;
        }
        k = k - 1;
    }
    proof {
        assert(fs@[last_index(fs@, n@)].name@ != n@);
    }
    0
}

fn arg_vars_of(args: &Vec<MirArgument>) -> (r: Vec<usize>)
    ensures
        r@.len() == args@.len(),
        forall|i: int| 0 <= i < args@.len() ==> #[trigger] r@[i] == args@[i].ssa_var,
{
    let mut out: Vec<usize> = Vec::new();
    let mut i: usize = 0;
    while i < args.len()
        invariant
            i <= args@.len(),
            out@.len() == i,
            forall|j: int| 0 <= j < i ==> #[trigger] out@[j] == args@[j].ssa_var,
        decreases args.len() - i,
    {
        out.push(args[i].ssa_var);
        i = i + 1;
    }
    out
}

/// Expands the bodies of pure functions where they are called.
pub struct InlinePass;

impl InlinePass {
    /// Inlines, in every function, each call to a function that may be
    /// inlined (a pure leaf, or a function without visible effects whose
    /// calls within the program all go to such functions, that never calls
    /// itself); a function's call to itself is inlined only when its
    /// self-calls were turned into loops. Calls inside inlined bodies are
    /// inlined in their turn. Nothing but the blocks changes.
    pub fn run(program: MirProgram) -> (r: MirProgram)
        requires
            inline_fits(program.functions@),
        ensures
            r.functions@.len() == program.functions@.len(),
            forall|k: int| 0 <= k < program.functions@.len() ==> {
                let f = program.functions@[k];
                let g = #[trigger] r.functions@[k];
                &&& g.name == f.name
                &&& g.args == f.args
                &&& g.return_type == f.return_type
                &&& g.is_pure_data_leaf == f.is_pure_data_leaf
                &&& g.diminishing == f.diminishing
                &&& g.memo_cache_size == f.memo_cache_size
                &&& no_expansion(program.functions@, inlineable_set(program.functions@), f.name@, g.blocks@)
                &&& no_expansion(program.functions@, inlineable_set(program.functions@), f.name@, f.blocks@) ==> g == f
                &&& inlined_by_steps(program.functions@, inlineable_set(program.functions@), f.blocks@, g.blocks@)
            },
    {
        let ghost fs = program.functions@;
        let ghost (kk, ll) = choose|kk: nat, ll: nat| #[trigger] program_fits(fs, kk, ll);
        let ghost s = inlineable_set(fs);
        let names = inlineable_names(&program.functions);
        proof {
            assert(texts(names@).to_set() =~= s);
        }
        let mut bodies: Vec<Body> = Vec::new();
        let mut i: usize = 0;
        while i < names.len()
            invariant
                i <= names@.len(),
                program.functions@ == fs,
                program_fits(fs, kk, ll),
                s == inlineable_set(fs),
                texts(names@).to_set() == s,
                forall|n: Seq<char>| #![trigger texts(names@).contains(n)] texts(names@).contains(n) <==> inlineable(fs, n),
                bodies@.len() == i,
                forall|j: int| 0 <= j < i ==> body_ok(fs, kk, #[trigger] bodies@[j]) && s.contains(bodies@[j].name@),
                forall|j: int| 0 <= j < i ==> (#[trigger] bodies@[j]).name@ == names@[j]@,
            decreases names.len() - i,
        {
            proof {
                assert(texts(names@)[i as int] == names@[i as int]@);
                assert(texts(names@).contains(names@[i as int]@));
            }
            let k = last_named(&program.functions, &names[i]);
            let f = &program.functions[k];
            let blocks = copy_blocks(&f.blocks);
            let arg_vars = arg_vars_of(&f.args);
            let b = Body { name: names[i].clone(), arg_vars, blocks };
            proof {
                assert(blocks_within(fs[k as int].blocks@, kk));
                assert(args_within(fs[k as int].args@, kk));
                assert forall|a: int| 0 <= a < b.arg_vars@.len() implies #[trigger] b.arg_vars@[a] <= kk by {
                    assert(fs[k as int].args@[a].ssa_var <= kk);
                }
                assert(body_ok(fs, kk, b));
            }
            bodies.push(b);
            i = i + 1;
        }
        proof {
            assert forall|n: Seq<char>| s.contains(n) implies exists|j: int| 0 <= j < bodies@.len() && (#[trigger] bodies@[j]).name@ == n by {
                assert(texts(names@).contains(n));
                let j = choose|j: int| 0 <= j < texts(names@).len() && texts(names@)[j] == n;
                assert(bodies@[j].name@ == n);
            }
            assert(bodies_ok(fs, s, kk, bodies@));
            assert forall|n: Seq<char>| s.contains(n) implies #[trigger] last_fn(fs, n).blocks@.len() <= ll
                && calls_fit(fs, s, last_fn(fs, n).blocks@) by {
                lemma_inlineable_named(fs, n);
                assert(fs[last_index(fs, n)].blocks@.len() <= ll);
                assert(calls_fit(fs, s, fs[last_index(fs, n)].blocks@));
            }
        }
        let mut rest = program.functions;
        let mut out: Vec<MirFunction> = Vec::new();
        while rest.len() > 0
            invariant
                out@.len() + rest@.len() == fs.len(),
                rest@ == fs.skip(out@.len() as int),
                program_fits(fs, kk, ll),
                s == inlineable_set(fs),
                bodies_ok(fs, s, kk, bodies@),
                forall|n: Seq<char>| s.contains(n) ==> #[trigger] last_fn(fs, n).blocks@.len() <= ll,
                forall|n: Seq<char>| s.contains(n) ==> calls_fit(fs, s, #[trigger] last_fn(fs, n).blocks@),
                forall|k: int| 0 <= k < out@.len() ==> {
                    let f = fs[k];
                    let g = #[trigger] out@[k];
                    &&& g.name == f.name
                    &&& g.args == f.args
                    &&& g.return_type == f.return_type
                    &&& g.is_pure_data_leaf == f.is_pure_data_leaf
                    &&& g.diminishing == f.diminishing
                    &&& g.memo_cache_size == f.memo_cache_size
                    &&& no_expansion(fs, s, f.name@, g.blocks@)
                    &&& no_expansion(fs, s, f.name@, f.blocks@) ==> g == f
                    &&& inlined_by_steps(fs, s, f.blocks@, g.blocks@)
                },
            decreases rest@.len(),
        {
            let ghost k = out@.len() as int;
            let f = rest.remove(0);
            proof {
                assert(f == fs[k]);
                assert(rest@ =~= fs.skip(k + 1));
                assert(blocks_within(fs[k].blocks@, kk));
                assert(args_within(fs[k].args@, kk));
                assert(calls_fit(fs, s, fs[k].blocks@));
                assert(expansion_fits(fs, s, fs[k].name@, fs[k].blocks@, kk, ll));
            }
            let g = inline_into(f, &bodies, Ghost(fs), Ghost(s), Ghost(kk), Ghost(ll));
            out.push(g);
        }
        MirProgram { functions: out }
    }
}

/// Only functions that never call themselves, and are marked as pure
/// leaves or have no visible effect, are ever inlined.
pub proof fn law_inlineable_has_no_effect(fs: Seq<MirFunction>, n: Seq<char>)
    requires
        inlineable(fs, n),
    ensures
        exists|k: int| 0 <= k < fs.len() && (#[trigger] fs[k]).name@ == n && !spec_calls_fn(fs[k].blocks@, n)
            && (fs[k].is_pure_data_leaf || !has_effects(fs[k].blocks@)),
{
    let w = choose|w: Seq<Seq<char>>| #[trigger] valid_order(fs, w) && w.contains(n);
    let t = choose|t: int| 0 <= t < w.len() && w[t] == n;
    assert(admitted_at(fs, w, t));
    let k = choose|k: int| 0 <= k < fs.len() && (#[trigger] fs[k]).name@ == w[t]
        && admissible(fs, fs[k], w.take(t).to_set());
}

proof fn lemma_order_concat(fs: Seq<MirFunction>, a: Seq<Seq<char>>, b: Seq<Seq<char>>)
    requires
        valid_order(fs, a),
        valid_order(fs, b),
    ensures
        valid_order(fs, a + b),
{
    let w = a + b;
    assert forall|t: int| 0 <= t < w.len() implies #[trigger] admitted_at(fs, w, t) by {
        if t < a.len() {
            assert(admitted_at(fs, a, t));
            assert(w.take(t) =~= a.take(t));
            let k = choose|k: int| 0 <= k < fs.len() && (#[trigger] fs[k]).name@ == a[t]
                && admissible(fs, fs[k], a.take(t).to_set());
            assert(fs[k].name@ == w[t]);
        } else {
            let u = t - a.len();
            assert(admitted_at(fs, b, u));
            let k = choose|k: int| 0 <= k < fs.len() && (#[trigger] fs[k]).name@ == b[u]
                && admissible(fs, fs[k], b.take(u).to_set());
            assert(w[t] == b[u]);
            assert forall|x: Seq<char>| b.take(u).to_set().contains(x) implies w.take(t).to_set().contains(x) by {
                let i = choose|i: int| 0 <= i < b.take(u).len() && b.take(u)[i] == x;
                assert(w.take(t)[a.len() + i] == x);
            }
            lemma_admissible_mono(fs, fs[k], b.take(u).to_set(), w.take(t).to_set());
        }
    }
}

/// An order whose names cover every name of `names` that is inlineable.
proof fn lemma_order_covering(fs: Seq<MirFunction>, names: Seq<Seq<char>>) -> (w: Seq<Seq<char>>)
    ensures
        valid_order(fs, w),
        forall|i: int| 0 <= i < names.len() && inlineable(fs, #[trigger] names[i]) ==> w.contains(names[i]),
    decreases names.len(),
{
    if names.len() == 0 {
        let w = Seq::<Seq<char>>::empty();
        assert(valid_order(fs, w));
        w
    } else {
        let w0 = lemma_order_covering(fs, names.drop_last());
        let n = names.last();
        if inlineable(fs, n) {
            let v = choose|v: Seq<Seq<char>>| #[trigger] valid_order(fs, v) && v.contains(n);
            lemma_order_concat(fs, w0, v);
            let w = w0 + v;
            assert forall|i: int| 0 <= i < names.len() && inlineable(fs, #[trigger] names[i]) implies w.contains(names[i]) by {
                if i < names.len() - 1 {
                    assert(names.drop_last()[i] == names[i]);
                    let j = choose|j: int| 0 <= j < w0.len() && w0[j] == names[i];
                    assert(w[j] == names[i]);
                } else {
                    let j = choose|j: int| 0 <= j < v.len() && v[j] == n;
                    assert(w[w0.len() + j] == n);
                }
            }
            w
        } else {
            assert forall|i: int| 0 <= i < names.len() && inlineable(fs, #[trigger] names[i]) implies w0.contains(names[i]) by {
                assert(i < names.len() - 1);
                assert(names.drop_last()[i] == names[i]);
            }
            w0
        }
    }
}

/// The inlineable names are closed: a function that is admissible once the
/// inlineable names may be inlined is itself inlineable.
pub proof fn law_inlineable_closed(fs: Seq<MirFunction>, k: int)
    requires
        0 <= k < fs.len(),
        admissible(fs, fs[k], inlineable_set(fs)),
    ensures
        inlineable(fs, fs[k].name@),
{
    let w0 = lemma_order_covering(fs, fnames(fs));
    let s = inlineable_set(fs);
    assert(w0.to_set().subset_of(s)) by {
        assert forall|x: Seq<char>| w0.to_set().contains(x) implies s.contains(x) by {
            let t = choose|t: int| 0 <= t < w0.len() && w0[t] == x;
            assert(inlineable(fs, x));
        }
    }
    if !fs[k].is_pure_data_leaf {
        assert forall|b: int, i: int, n: Seq<char>| 0 <= b < fs[k].blocks@.len() && 0 <= i < fs[k].blocks@[b].instructions@.len()
            && #[trigger] spec_calls(fs[k].blocks@[b].instructions@[i], n) && defines(fs, n)
            implies w0.to_set().contains(n) by {
            assert(s.contains(n));
            let j = choose|j: int| 0 <= j < fs.len() && (#[trigger] fs[j]).name@ == n;
            assert(fnames(fs)[j] == n);
            assert(w0.contains(n));
        }
    }
    let w = w0.push(fs[k].name@);
    assert(w.take(w0.len() as int) =~= w0);
    assert forall|t: int| 0 <= t < w.len() implies #[trigger] admitted_at(fs, w, t) by {
        if t < w0.len() {
            assert(admitted_at(fs, w0, t));
            assert(w.take(t) =~= w0.take(t));
            let j = choose|j: int| 0 <= j < fs.len() && (#[trigger] fs[j]).name@ == w0[t]
                && admissible(fs, fs[j], w0.take(t).to_set());
            assert(fs[j].name@ == w[t]);
        } else {
            assert(t == w0.len());
            assert(w.take(t) =~= w0);
            assert(admissible(fs, fs[k], w0.to_set()));
            assert(fs[k].name@ == w[t]);
        }
    }
    assert(valid_order(fs, w));
    assert(w[w0.len() as int] == fs[k].name@);
    assert(w.contains(fs[k].name@));
}

/// `m`, raised to cover the variable an operand reads.
fn op_up(m: usize, op: &MirOperand) -> (r: usize)
    ensures
        m <= r,
        op_within(*op, r as nat),
{
    match op {
        MirOperand::Variable(v, _) => if *v > m { *v } else { m },
        MirOperand::Constant(_) => m,
    }
}

/// `m`, raised to cover the variables a list of operands reads.
fn ops_up(m: usize, ops: &Vec<MirOperand>) -> (r: usize)
    ensures
        m <= r,
        ops_within(ops@, r as nat),
{
    let mut r: usize = m;
    let mut i: usize = 0;
    while i < ops.len()
        invariant
            i <= ops@.len(),
            m <= r,
            forall|j: int| 0 <= j < i ==> op_within(#[trigger] ops@[j], r as nat),
        decreases ops.len() - i,
    {
        let r2 = op_up(r, &ops[i]);
        assert forall|j: int| 0 <= j < i + 1 implies op_within(#[trigger] ops@[j], r2 as nat) by {
            if j < i {
                assert(op_within(ops@[j], r as nat));
            }
        }
        r = r2;
        i = i + 1;
    }
    r
}

/// A number that covers every number of an instruction.
fn inst_max(inst: &MirInstruction) -> (r: usize)
    ensures
        inst_within(*inst, r as nat),
{
    match inst {
        MirInstruction::Assign { dest, src } => op_up(*dest, src),
        MirInstruction::BinaryOperation { dest, lhs, rhs, .. } => op_up(op_up(*dest, lhs), rhs),
        MirInstruction::Call { dest, args, .. } => ops_up(*dest, args),
        MirInstruction::Tuple { dest, elements } => ops_up(*dest, elements),
        MirInstruction::Index { dest, subject, .. } => op_up(*dest, subject),
        MirInstruction::Alloc { dest, size_bytes } => op_up(*dest, size_bytes),
        MirInstruction::StackAlloc { dest, .. } => *dest,
        MirInstruction::GlobalAlloc { dest, .. } => *dest,
        MirInstruction::SaveArena { dest } => *dest,
        MirInstruction::RestoreArena { saved } => op_up(0, saved),
        MirInstruction::PointerOffset { dest, ptr, offset } => op_up(op_up(*dest, ptr), offset),
        MirInstruction::Load { dest, ptr, .. } => op_up(*dest, ptr),
        MirInstruction::Store { ptr, value } => op_up(op_up(0, ptr), value),
        MirInstruction::TypedStore { ptr, value, .. } => op_up(op_up(0, ptr), value),
        MirInstruction::MemCopy { dest, src, size } => op_up(op_up(op_up(0, dest), src), size),
        MirInstruction::MemSet { ptr, value, size } => op_up(op_up(op_up(0, ptr), value), size),
        MirInstruction::Emit(op) => op_up(0, op),
        MirInstruction::Drop { ssa_var, .. } => *ssa_var,
        MirInstruction::Promote { dest, src, .. } => op_up(*dest, src),
        MirInstruction::BitCast { dest, src, .. } => op_up(*dest, src),
        MirInstruction::ConstantTableLoad { dest, index, .. } => op_up(*dest, index),
        MirInstruction::FunnelShiftRight { dest, hi, lo, amount, .. } => op_up(op_up(op_up(*dest, hi), lo), amount),
        MirInstruction::BufferedWrite { ptr, len } => op_up(op_up(0, ptr), len),
        MirInstruction::FlushStdout => 0,
    }
}

/// A number that covers every number of a terminator.
fn term_max(t: &MirTerminator) -> (r: usize)
    ensures
        term_within(*t, r as nat),
{
    match t {
        MirTerminator::Return(op) => op_up(0, op),
        MirTerminator::Branch(b) => *b,
        MirTerminator::CondBranch { condition, then_block, else_block } => {
            let m = if *then_block > *else_block { *then_block } else { *else_block };
            op_up(m, condition)
        },
        MirTerminator::Unreachable => 0,
    }
}

proof fn lemma_block_within_mono(b: BasicBlock, x: nat, y: nat)
    requires
        block_within(b, x),
        x <= y,
    ensures
        block_within(b, y),
{
    assert forall|i: int| 0 <= i < b.instructions@.len() implies inst_within(#[trigger] b.instructions@[i], y) by {
        lemma_inst_within_mono(b.instructions@[i], x, y);
    }
}

proof fn lemma_blocks_within_mono(bs: Seq<BasicBlock>, x: nat, y: nat)
    requires
        blocks_within(bs, x),
        x <= y,
    ensures
        blocks_within(bs, y),
{
    assert forall|i: int| 0 <= i < bs.len() implies block_within(#[trigger] bs[i], y) by {
        lemma_block_within_mono(bs[i], x, y);
    }
}

/// A number that covers every number of a list of blocks.
fn blocks_max(bs: &Vec<BasicBlock>) -> (r: usize)
    ensures
        blocks_within(bs@, r as nat),
{
    let mut r: usize = 0;
    let mut b: usize = 0;
    while b < bs.len()
        invariant
            b <= bs@.len(),
            forall|j: int| 0 <= j < b ==> block_within(#[trigger] bs@[j], r as nat),
        decreases bs.len() - b,
    {
        let blk = &bs[b];
        let mut m: usize = term_max(&blk.terminator);
        if blk.id > m {
            m = blk.id;
        }
        if r > m {
            m = r;
        }
        let mut i: usize = 0;
        while i < blk.instructions.len()
            invariant
                i <= blk.instructions@.len(),
                r <= m,
                blk.id <= m,
                term_within(blk.terminator, m as nat),
                forall|j: int| 0 <= j < i ==> inst_within(#[trigger] blk.instructions@[j], m as nat),
            decreases blk.instructions.len() - i,
        {
            let x = inst_max(&blk.instructions[i]);
            if x > m {
                proof {
                    assert forall|j: int| 0 <= j < i implies inst_within(#[trigger] blk.instructions@[j], x as nat) by {
                        lemma_inst_within_mono(blk.instructions@[j], m as nat, x as nat);
                    }
                }
                m = x;
            } else {
                proof {
                    lemma_inst_within_mono(blk.instructions@[i as int], x as nat, m as nat);
                }
            }
            i = i + 1;
        }
        proof {
            assert forall|j: int| 0 <= j < b implies block_within(#[trigger] bs@[j], m as nat) by {
                lemma_block_within_mono(bs@[j], r as nat, m as nat);
            }
        }
        r = m;
        b = b + 1;
    }
    r
}

/// An instruction that calls no name of `s`.
pub open spec fn call_closed(s: Set<Seq<char>>, inst: MirInstruction) -> bool {
    match call_name(inst) {
        Some(m) => !s.contains(m),
        None => true,
    }
}

/// No instruction of the body of `n` calls a name of `s`.
pub open spec fn body_closed(fs: Seq<MirFunction>, s: Set<Seq<char>>, n: Seq<char>) -> bool {
    forall|b: int, i: int| 0 <= b < last_fn(fs, n).blocks@.len() && 0 <= i < last_fn(fs, n).blocks@[b].instructions@.len()
        ==> #[trigger] call_closed(s, last_fn(fs, n).blocks@[b].instructions@[i])
}

/// `m`, raised to cover the variables of a list of parameters.
fn args_up(m: usize, args: &Vec<MirArgument>) -> (r: usize)
    ensures
        m <= r,
        args_within(args@, r as nat),
{
    let mut r: usize = m;
    let mut i: usize = 0;
    while i < args.len()
        invariant
            i <= args@.len(),
            m <= r,
            forall|j: int| 0 <= j < i ==> (#[trigger] args@[j]).ssa_var <= r,
        decreases args.len() - i,
    {
        if args[i].ssa_var > r {
            r = args[i].ssa_var;
        }
        i = i + 1;
    }
    r
}

/// Whether every call of the blocks to a function that may be inlined
/// passes enough arguments to a body that has a block.
fn calls_ok(fs: &Vec<MirFunction>, names: &Vec<String>, blocks: &Vec<BasicBlock>) -> (r: bool)
    requires
        forall|n: Seq<char>| #![trigger texts(names@).contains(n)] texts(names@).contains(n) <==> inlineable(fs@, n),
    ensures
        r ==> calls_fit(fs@, inlineable_set(fs@), blocks@),
{
    let ghost s = inlineable_set(fs@);
    let mut b: usize = 0;
    while b < blocks.len()
        invariant
            b <= blocks@.len(),
            s == inlineable_set(fs@),
            forall|n: Seq<char>| #![trigger texts(names@).contains(n)] texts(names@).contains(n) <==> inlineable(fs@, n),
            forall|bb: int, i: int| 0 <= bb < b && 0 <= i < blocks@[bb].instructions@.len()
                ==> #[trigger] call_fits(fs@, s, blocks@[bb].instructions@[i]),
        decreases blocks.len() - b,
    {
        let insts = &blocks[b].instructions;
        let mut i: usize = 0;
        while i < insts.len()
            invariant
                b < blocks@.len(),
                *insts == blocks@[b as int].instructions,
                i <= insts@.len(),
                s == inlineable_set(fs@),
                forall|n: Seq<char>| #![trigger texts(names@).contains(n)] texts(names@).contains(n) <==> inlineable(fs@, n),
                forall|bb: int, j: int| 0 <= bb < b && 0 <= j < blocks@[bb].instructions@.len()
                    ==> #[trigger] call_fits(fs@, s, blocks@[bb].instructions@[j]),
                forall|j: int| 0 <= j < i ==> #[trigger] call_fits(fs@, s, insts@[j]),
            decreases insts.len() - i,
        {
            if let MirInstruction::Call { name, args, .. } = &insts[i] {
                if holds(names, name) {
                    let idx = last_named(fs, name);
                    if args.len() < fs[idx].args.len() || fs[idx].blocks.len() < 1 {
                        return false;
                    }
                } else {
                    assert(!inlineable(fs@, name@));
                }
            }
            i = i + 1;
        }
        b = b + 1;
    }
    true
}

/// Whether no instruction of the blocks calls a function that may be
/// inlined.
fn closed_ok(fs: &Vec<MirFunction>, names: &Vec<String>, blocks: &Vec<BasicBlock>) -> (r: bool)
    requires
        forall|n: Seq<char>| #![trigger texts(names@).contains(n)] texts(names@).contains(n) <==> inlineable(fs@, n),
    ensures
        r ==> forall|b: int, i: int| 0 <= b < blocks@.len() && 0 <= i < blocks@[b].instructions@.len()
            ==> #[trigger] call_closed(inlineable_set(fs@), blocks@[b].instructions@[i]),
{
    let ghost s = inlineable_set(fs@);
    let mut b: usize = 0;
    while b < blocks.len()
        invariant
            b <= blocks@.len(),
            s == inlineable_set(fs@),
            forall|n: Seq<char>| #![trigger texts(names@).contains(n)] texts(names@).contains(n) <==> inlineable(fs@, n),
            forall|bb: int, i: int| 0 <= bb < b && 0 <= i < blocks@[bb].instructions@.len()
                ==> #[trigger] call_closed(s, blocks@[bb].instructions@[i]),
        decreases blocks.len() - b,
    {
        let insts = &blocks[b].instructions;
        let mut i: usize = 0;
        while i < insts.len()
            invariant
                b < blocks@.len(),
                *insts == blocks@[b as int].instructions,
                i <= insts@.len(),
                s == inlineable_set(fs@),
                forall|n: Seq<char>| #![trigger texts(names@).contains(n)] texts(names@).contains(n) <==> inlineable(fs@, n),
                forall|bb: int, j: int| 0 <= bb < b && 0 <= j < blocks@[bb].instructions@.len()
                    ==> #[trigger] call_closed(s, blocks@[bb].instructions@[j]),
                forall|j: int| 0 <= j < i ==> #[trigger] call_closed(s, insts@[j]),
            decreases insts.len() - i,
        {
            if let MirInstruction::Call { name, .. } = &insts[i] {
                if holds(names, name) {
                    return false;
                }
            }
            i = i + 1;
        }
        b = b + 1;
    }
    true
}

proof fn lemma_insts_pot_cap0(e: Expansion, is: Seq<MirInstruction>)
    ensures
        e.insts_pot(is, 0) == 0,
    decreases is.len(),
{
    if is.len() > 0 {
        lemma_insts_pot_cap0(e, is.drop_last());
        assert(e.inst_pot(is.last(), 0) == 0);
    }
}

proof fn lemma_blocks_pot_cap0(e: Expansion, bs: Seq<BasicBlock>)
    ensures
        e.blocks_pot(bs, 0) == bs.len(),
    decreases bs.len(),
{
    if bs.len() > 0 {
        lemma_blocks_pot_cap0(e, bs.drop_last());
        lemma_insts_pot_cap0(e, bs.last().instructions@);
    }
}

/// With every rank 0, an expanded call costs its callee's blocks and one.
proof fn lemma_insts_pot_one(e: Expansion, is: Seq<MirInstruction>, ll: nat)
    requires
        forall|n: Seq<char>| e.s.contains(n) ==> #[trigger] last_fn(e.fs, n).blocks@.len() <= ll,
    ensures
        e.insts_pot(is, 1) <= is.len() * (1 + ll),
    decreases is.len(),
{
    if is.len() > 0 {
        lemma_insts_pot_one(e, is.drop_last(), ll);
        let inst = is.last();
        if let Some(n) = call_name(inst) {
            if expands(e.fs, e.s, e.cname, inst) && (e.rank)(n) < 1 {
                assert((e.rank)(n) == 0);
                lemma_blocks_pot_cap0(e, last_fn(e.fs, n).blocks@);
                assert(e.inst_pot(inst, 1) == e.body_pot(n));
            }
        }
        assert(e.inst_pot(inst, 1) <= 1 + ll);
        lemma_mul_succ((is.len() - 1) as nat, 1 + ll);
    }
}

proof fn lemma_blocks_pot_one(e: Expansion, bs: Seq<BasicBlock>, ll: nat, w: nat)
    requires
        forall|n: Seq<char>| e.s.contains(n) ==> #[trigger] last_fn(e.fs, n).blocks@.len() <= ll,
        forall|b: int| 0 <= b < bs.len() ==> (#[trigger] bs[b]).instructions@.len() <= w,
    ensures
        e.blocks_pot(bs, 1) <= bs.len() * (1 + w * (1 + ll)),
    decreases bs.len(),
{
    if bs.len() > 0 {
        let d = bs.drop_last();
        assert forall|b: int| 0 <= b < d.len() implies (#[trigger] d[b]).instructions@.len() <= w by {
            assert(d[b] == bs[b]);
        }
        lemma_blocks_pot_one(e, d, ll, w);
        let last = bs.last().instructions@;
        assert(bs.last() == bs[bs.len() - 1]);
        lemma_insts_pot_one(e, last, ll);
        lemma_mul_mono(last.len(), w, 1 + ll);
        lemma_mul_succ(d.len(), 1 + w * (1 + ll));
    }
}

/// A call that, when it names a function of `s`, names one whose body
/// calls no function of `s`.
pub open spec fn call_to_closed(fs: Seq<MirFunction>, s: Set<Seq<char>>, inst: MirInstruction) -> bool {
    match call_name(inst) {
        Some(m) => s.contains(m) ==> body_closed(fs, s, m),
        None => true,
    }
}

/// Every call of the body of `n` to a function of `s` names one whose body
/// calls no function of `s`.
pub open spec fn body_level_one(fs: Seq<MirFunction>, s: Set<Seq<char>>, n: Seq<char>) -> bool {
    forall|b: int, i: int| 0 <= b < last_fn(fs, n).blocks@.len() && 0 <= i < last_fn(fs, n).blocks@[b].instructions@.len()
        ==> #[trigger] call_to_closed(fs, s, last_fn(fs, n).blocks@[b].instructions@[i])
}

/// The position of a name in the list, if it is there.
fn name_index(names: &Vec<String>, n: &String) -> (r: Option<usize>)
    ensures
        r matches Some(j) ==> j < names@.len() && names@[j as int]@ == n@,
        r is None ==> !texts(names@).contains(n@),
{
    let mut j: usize = 0;
    while j < names.len()
        invariant
            j <= names@.len(),
            forall|k: int| 0 <= k < j ==> names@[k]@ != n@,
        decreases names.len() - j,
    {
        if str_eq(names[j].as_str(), n.as_str()) {
            return Some(j);
        }
        j = j + 1;
    }
    proof {
        assert forall|k: int| 0 <= k < texts(names@).len() implies texts(names@)[k] != n@ by {
            assert(texts(names@)[k] == names@[k]@);
        }
    }
    None
}

/// Whether every call of the blocks to a function that may be inlined names
/// one whose body calls no such function (as `closed` records, name by
/// name).
fn level_ok(fs: &Vec<MirFunction>, names: &Vec<String>, closed: &Vec<bool>, blocks: &Vec<BasicBlock>) -> (r: bool)
    requires
        forall|n: Seq<char>| #![trigger texts(names@).contains(n)] texts(names@).contains(n) <==> inlineable(fs@, n),
        closed@.len() == names@.len(),
        forall|j: int| 0 <= j < closed@.len() && #[trigger] closed@[j] ==> body_closed(fs@, inlineable_set(fs@), texts(names@)[j]),
    ensures
        r ==> forall|b: int, i: int| 0 <= b < blocks@.len() && 0 <= i < blocks@[b].instructions@.len()
            ==> #[trigger] call_to_closed(fs@, inlineable_set(fs@), blocks@[b].instructions@[i]),
{
    let ghost s = inlineable_set(fs@);
    let mut b: usize = 0;
    while b < blocks.len()
        invariant
            b <= blocks@.len(),
            s == inlineable_set(fs@),
            forall|n: Seq<char>| #![trigger texts(names@).contains(n)] texts(names@).contains(n) <==> inlineable(fs@, n),
            closed@.len() == names@.len(),
            forall|j: int| 0 <= j < closed@.len() && #[trigger] closed@[j] ==> body_closed(fs@, s, texts(names@)[j]),
            forall|bb: int, i: int| 0 <= bb < b && 0 <= i < blocks@[bb].instructions@.len()
                ==> #[trigger] call_to_closed(fs@, s, blocks@[bb].instructions@[i]),
        decreases blocks.len() - b,
    {
        let insts = &blocks[b].instructions;
        let mut i: usize = 0;
        while i < insts.len()
            invariant
                b < blocks@.len(),
                *insts == blocks@[b as int].instructions,
                i <= insts@.len(),
                s == inlineable_set(fs@),
                forall|n: Seq<char>| #![trigger texts(names@).contains(n)] texts(names@).contains(n) <==> inlineable(fs@, n),
                closed@.len() == names@.len(),
                forall|j: int| 0 <= j < closed@.len() && #[trigger] closed@[j] ==> body_closed(fs@, s, texts(names@)[j]),
                forall|bb: int, j: int| 0 <= bb < b && 0 <= j < blocks@[bb].instructions@.len()
                    ==> #[trigger] call_to_closed(fs@, s, blocks@[bb].instructions@[j]),
                forall|j: int| 0 <= j < i ==> #[trigger] call_to_closed(fs@, s, insts@[j]),
            decreases insts.len() - i,
        {
            if let MirInstruction::Call { name, .. } = &insts[i] {
                match name_index(names, name) {
                    Some(j) => {
                        if !closed[j] {
                            return false;
                        }
                        proof {
                            assert(texts(names@)[j as int] == names@[j as int]@);
                            assert(closed@[j as int]);
                        }
                    },
                    None => {},
                }
            }
            i = i + 1;
        }
        b = b + 1;
    }
    true
}

/// Blocks that call no name of the set cost one each.
proof fn lemma_blocks_pot_closed(e: Expansion, bs: Seq<BasicBlock>, cap: nat)
    requires
        forall|b: int, i: int| 0 <= b < bs.len() && 0 <= i < bs[b].instructions@.len()
            ==> #[trigger] call_closed(e.s, bs[b].instructions@[i]),
    ensures
        e.blocks_pot(bs, cap) == bs.len(),
    decreases bs.len(),
{
    if bs.len() > 0 {
        let d = bs.drop_last();
        assert forall|b: int, i: int| 0 <= b < d.len() && 0 <= i < d[b].instructions@.len()
            implies #[trigger] call_closed(e.s, d[b].instructions@[i]) by {
            assert(d[b] == bs[b]);
        }
        lemma_blocks_pot_closed(e, d, cap);
        let last = bs.last().instructions@;
        assert forall|i: int| 0 <= i < last.len() implies !expands(e.fs, e.s, e.cname, #[trigger] last[i]) by {
            assert(bs.last() == bs[bs.len() - 1]);
            assert(call_closed(e.s, bs[bs.len() - 1].instructions@[i]));
        }
        lemma_insts_pot_zero(e, last, cap);
    }
}

/// The bound on what an expanded call costs when bodies are ranked 0
/// (calling no inlineable body) or 1.
pub open spec fn call_bound(ll: nat, w: nat) -> nat {
    1 + ll * (1 + w * (1 + ll))
}

proof fn lemma_insts_pot_two(e: Expansion, is: Seq<MirInstruction>, ll: nat, w: nat)
    requires
        forall|n: Seq<char>| e.s.contains(n) ==> #[trigger] last_fn(e.fs, n).blocks@.len() <= ll,
        forall|n: Seq<char>, b: int| e.s.contains(n) && 0 <= b < last_fn(e.fs, n).blocks@.len()
            ==> (#[trigger] last_fn(e.fs, n).blocks@[b]).instructions@.len() <= w,
        forall|n: Seq<char>| e.s.contains(n) && (e.rank)(n) == 0 ==> #[trigger] body_closed(e.fs, e.s, n),
    ensures
        e.insts_pot(is, 2) <= is.len() * call_bound(ll, w),
    decreases is.len(),
{
    if is.len() > 0 {
        lemma_insts_pot_two(e, is.drop_last(), ll, w);
        let inst = is.last();
        let q = call_bound(ll, w);
        assert(ll <= ll * (1 + w * (1 + ll))) by (nonlinear_arith);
        if let Some(n) = call_name(inst) {
            if expands(e.fs, e.s, e.cname, inst) && (e.rank)(n) < 2 {
                let body = last_fn(e.fs, n).blocks@;
                assert(e.inst_pot(inst, 2) == 1 + e.blocks_pot(body, (e.rank)(n)));
                if (e.rank)(n) == 0 {
                    assert(body_closed(e.fs, e.s, n));
                    lemma_blocks_pot_closed(e, body, 0);
                } else {
                    assert forall|b: int| 0 <= b < body.len() implies (#[trigger] body[b]).instructions@.len() <= w by {
                    }
                    lemma_blocks_pot_one(e, body, ll, w);
                    lemma_mul_mono(body.len(), ll, 1 + w * (1 + ll));
                }
            }
        }
        assert(e.inst_pot(inst, 2) <= q);
        lemma_mul_succ((is.len() - 1) as nat, q);
    }
}

proof fn lemma_blocks_pot_two(e: Expansion, bs: Seq<BasicBlock>, ll: nat, w: nat)
    requires
        forall|n: Seq<char>| e.s.contains(n) ==> #[trigger] last_fn(e.fs, n).blocks@.len() <= ll,
        forall|n: Seq<char>, b: int| e.s.contains(n) && 0 <= b < last_fn(e.fs, n).blocks@.len()
            ==> (#[trigger] last_fn(e.fs, n).blocks@[b]).instructions@.len() <= w,
        forall|n: Seq<char>| e.s.contains(n) && (e.rank)(n) == 0 ==> #[trigger] body_closed(e.fs, e.s, n),
        forall|b: int| 0 <= b < bs.len() ==> (#[trigger] bs[b]).instructions@.len() <= w,
    ensures
        e.blocks_pot(bs, 2) <= bs.len() * (1 + w * call_bound(ll, w)),
    decreases bs.len(),
{
    if bs.len() > 0 {
        let d = bs.drop_last();
        assert forall|b: int| 0 <= b < d.len() implies (#[trigger] d[b]).instructions@.len() <= w by {
            assert(d[b] == bs[b]);
        }
        lemma_blocks_pot_two(e, d, ll, w);
        let last = bs.last().instructions@;
        assert(bs.last() == bs[bs.len() - 1]);
        lemma_insts_pot_two(e, last, ll, w);
        lemma_mul_mono(last.len(), w, call_bound(ll, w));
        lemma_mul_succ(d.len(), 1 + w * call_bound(ll, w));
    }
}

/// Whether the inline pass may run on the program: a test of enough of
/// what `InlinePass::run` needs. It holds when each body that may be
/// inlined calls no such body, or calls only such bodies that call none (so
/// expansion goes at most two levels deep), every call to such a body
/// passes enough arguments to a body that has a block, and the numbers of
/// every expanded function stay within `usize`.
pub fn inline_ready(program: &MirProgram) -> (r: bool)
    ensures
        r ==> inline_fits(program.functions@),
{
    let fs = &program.functions;
    let names = inlineable_names(fs);
    let ghost s = inlineable_set(fs@);
    let mut kk: usize = 0;
    let mut ll: usize = 0;
    let mut w: usize = 0;
    let mut k: usize = 0;
    while k < fs.len()
        invariant
            fs@ == program.functions@,
            s == inlineable_set(fs@),
            forall|n: Seq<char>| #![trigger texts(names@).contains(n)] texts(names@).contains(n) <==> inlineable(fs@, n),
            k <= fs@.len(),
            forall|j: int| 0 <= j < k ==> blocks_within(#[trigger] fs@[j].blocks@, kk as nat),
            forall|j: int| 0 <= j < k ==> args_within(#[trigger] fs@[j].args@, kk as nat),
            forall|j: int| 0 <= j < k ==> (#[trigger] fs@[j]).blocks@.len() <= ll,
            forall|j: int, b: int| 0 <= j < k && 0 <= b < fs@[j].blocks@.len() ==> (#[trigger] fs@[j].blocks@[b]).instructions@.len() <= w,
            forall|j: int| 0 <= j < k ==> calls_fit(fs@, s, #[trigger] fs@[j].blocks@),
        decreases fs.len() - k,
    {
        let f = &fs[k];
        let bm = blocks_max(&f.blocks);
        let am = args_up(bm, &f.args);
        let nk = if am > kk { am } else { kk };
        proof {
            lemma_blocks_within_mono(f.blocks@, bm as nat, nk as nat);
            assert forall|j: int| 0 <= j < k implies blocks_within(#[trigger] fs@[j].blocks@, nk as nat) by {
                lemma_blocks_within_mono(fs@[j].blocks@, kk as nat, nk as nat);
            }
            assert forall|j: int| 0 <= j < k + 1 implies args_within(#[trigger] fs@[j].args@, nk as nat) by {
                if j < k {
                    assert(args_within(fs@[j].args@, kk as nat));
                    assert forall|i: int| 0 <= i < fs@[j].args@.len() implies (#[trigger] fs@[j].args@[i]).ssa_var <= nk by {
                    }
                } else {
                    assert forall|i: int| 0 <= i < fs@[j].args@.len() implies (#[trigger] fs@[j].args@[i]).ssa_var <= nk by {
                        assert(fs@[j].args@[i].ssa_var <= am);
                    }
                }
            }
        }
        kk = nk;
        if f.blocks.len() > ll {
            ll = f.blocks.len();
        }
        let mut b: usize = 0;
        let ghost w0 = w;
        while b < f.blocks.len()
            invariant
                b <= f.blocks@.len(),
                w0 <= w,
                forall|bb: int| 0 <= bb < b ==> (#[trigger] f.blocks@[bb]).instructions@.len() <= w,
            decreases f.blocks.len() - b,
        {
            if f.blocks[b].instructions.len() > w {
                w = f.blocks[b].instructions.len();
            }
            b = b + 1;
        }
        if !calls_ok(fs, &names, &f.blocks) {
            return false;
        }
        k = k + 1;
    }
    let mut closed: Vec<bool> = Vec::new();
    let mut j: usize = 0;
    while j < names.len()
        invariant
            fs@ == program.functions@,
            s == inlineable_set(fs@),
            forall|n: Seq<char>| #![trigger texts(names@).contains(n)] texts(names@).contains(n) <==> inlineable(fs@, n),
            j <= names@.len(),
            closed@.len() == j,
            forall|jj: int| 0 <= jj < j && #[trigger] closed@[jj] ==> body_closed(fs@, s, texts(names@)[jj]),
        decreases names.len() - j,
    {
        proof {
            assert(texts(names@)[j as int] == names@[j as int]@);
            assert(texts(names@).contains(names@[j as int]@));
        }
        let idx = last_named(fs, &names[j]);
        let c = closed_ok(fs, &names, &fs[idx].blocks);
        closed.push(c);
        j = j + 1;
    }
    let mut j: usize = 0;
    while j < names.len()
        invariant
            fs@ == program.functions@,
            s == inlineable_set(fs@),
            forall|n: Seq<char>| #![trigger texts(names@).contains(n)] texts(names@).contains(n) <==> inlineable(fs@, n),
            closed@.len() == names@.len(),
            forall|jj: int| 0 <= jj < closed@.len() && #[trigger] closed@[jj] ==> body_closed(fs@, s, texts(names@)[jj]),
            j <= names@.len(),
            forall|jj: int| 0 <= jj < j ==> closed@[jj] || body_level_one(fs@, s, #[trigger] texts(names@)[jj]),
        decreases names.len() - j,
    {
        if !closed[j] {
            proof {
                assert(texts(names@)[j as int] == names@[j as int]@);
                assert(texts(names@).contains(names@[j as int]@));
            }
            let idx = last_named(fs, &names[j]);
            if !level_ok(fs, &names, &closed, &fs[idx].blocks) {
                return false;
            }
        }
        j = j + 1;
    }
    proof {
        assert forall|n: Seq<char>| s.contains(n) implies body_closed(fs@, s, n) || #[trigger] body_level_one(fs@, s, n) by {
            assert(texts(names@).contains(n));
            let jj = choose|jj: int| 0 <= jj < texts(names@).len() && texts(names@)[jj] == n;
            assert(closed@[jj] || body_level_one(fs@, s, texts(names@)[jj]));
        }
    }
    let ghost rank = |n: Seq<char>| if body_closed(fs@, s, n) { 0nat } else { 1nat };
    let mut k: usize = 0;
    while k < fs.len()
        invariant
            fs@ == program.functions@,
            s == inlineable_set(fs@),
            k <= fs@.len(),
            forall|n: Seq<char>| s.contains(n) ==> body_closed(fs@, s, n) || #[trigger] body_level_one(fs@, s, n),
            forall|n: Seq<char>| #[trigger] rank(n) == if body_closed(fs@, s, n) { 0nat } else { 1nat },
            forall|j: int| 0 <= j < fs@.len() ==> (#[trigger] fs@[j]).blocks@.len() <= ll,
            forall|j: int, b: int| 0 <= j < fs@.len() && 0 <= b < fs@[j].blocks@.len() ==> (#[trigger] fs@[j].blocks@[b]).instructions@.len() <= w,
            forall|j: int| 0 <= j < k ==> expansion_fits(fs@, s, (#[trigger] fs@[j]).name@, fs@[j].blocks@, kk as nat, ll as nat),
        decreases fs.len() - k,
    {
        let nb = fs[k].blocks.len() as u128;
        let l1 = ll as u128 + 1;
        let a1 = match (w as u128).checked_mul(l1) {
            Some(x) => x,
            None => {
                return false;
            },
        };
        let b1 = match a1.checked_add(1) {
            Some(x) => x,
            None => {
                return false;
            },
        };
        let a2 = match (ll as u128).checked_mul(b1) {
            Some(x) => x,
            None => {
                return false;
            },
        };
        let q = match a2.checked_add(1) {
            Some(x) => x,
            None => {
                return false;
            },
        };
        let a3 = match (w as u128).checked_mul(q) {
            Some(x) => x,
            None => {
                return false;
            },
        };
        let per = match a3.checked_add(1) {
            Some(x) => x,
            None => {
                return false;
            },
        };
        let pp = match nb.checked_mul(per) {
            Some(x) => x,
            None => {
                return false;
            },
        };
        let c = kk as u128 + ll as u128 + 1;
        let p1 = match pp.checked_add(1) {
            Some(x) => x,
            None => {
                return false;
            },
        };
        let t = match p1.checked_mul(c) {
            Some(x) => x,
            None => {
                return false;
            },
        };
        let tot = match t.checked_add(kk as u128) {
            Some(x) => x,
            None => {
                return false;
            },
        };
        if tot > usize::MAX as u128 {
            return false;
        }
        proof {
            let f = fs@[k as int];
            let e = Expansion { fs: fs@, s, cname: f.name@, rank };
            assert(q == call_bound(ll as nat, w as nat));
            assert forall|n: Seq<char>| e.s.contains(n) implies #[trigger] last_fn(e.fs, n).blocks@.len() <= ll by {
                lemma_inlineable_named(fs@, n);
                assert(fs@[last_index(fs@, n)].blocks@.len() <= ll);
            }
            assert forall|n: Seq<char>, b: int| e.s.contains(n) && 0 <= b < last_fn(e.fs, n).blocks@.len()
                implies (#[trigger] last_fn(e.fs, n).blocks@[b]).instructions@.len() <= w by {
                lemma_inlineable_named(fs@, n);
                assert(fs@[last_index(fs@, n)].blocks@[b].instructions@.len() <= w);
            }
            assert forall|n: Seq<char>| e.s.contains(n) && (e.rank)(n) == 0 implies #[trigger] body_closed(e.fs, e.s, n) by {
                assert(rank(n) == if body_closed(fs@, s, n) { 0nat } else { 1nat });
            }
            assert forall|b: int| 0 <= b < f.blocks@.len() implies (#[trigger] f.blocks@[b]).instructions@.len() <= w by {
                assert(fs@[k as int].blocks@[b] == f.blocks@[b]);
            }
            lemma_blocks_pot_two(e, f.blocks@, ll as nat, w as nat);
            let pot = e.blocks_pot(f.blocks@, 2);
            lemma_mul_mono(pot + 1, pp as nat + 1, (kk + ll + 1) as nat);
            assert forall|n: Seq<char>, b: int, i: int| s.contains(n) && 0 <= b < last_fn(fs@, n).blocks@.len()
                && 0 <= i < last_fn(fs@, n).blocks@[b].instructions@.len()
                && #[trigger] expands(fs@, s, f.name@, last_fn(fs@, n).blocks@[b].instructions@[i])
                implies rank(call_name(last_fn(fs@, n).blocks@[b].instructions@[i])->0) < rank(n) by {
                let inst = last_fn(fs@, n).blocks@[b].instructions@[i];
                let m = call_name(inst)->0;
                assert(rank(n) == if body_closed(fs@, s, n) { 0nat } else { 1nat });
                assert(rank(m) == if body_closed(fs@, s, m) { 0nat } else { 1nat });
                if body_closed(fs@, s, n) {
                    assert(call_closed(s, inst));
                } else {
                    assert(body_level_one(fs@, s, n));
                    assert(call_to_closed(fs@, s, inst));
                }
            }
            assert forall|n: Seq<char>| s.contains(n) implies #[trigger] rank(n) < 2 by {
                assert(rank(n) == if body_closed(fs@, s, n) { 0nat } else { 1nat });
            }
            assert(fits_with(fs@, s, f.name@, f.blocks@, kk as nat, ll as nat, rank, 2));
        }
        k = k + 1;
    }
    proof {
        assert(program_fits(fs@, kk as nat, ll as nat));
    }
    true
}

} // verus!
