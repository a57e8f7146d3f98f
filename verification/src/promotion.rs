//! Wide-integer promotion: in a function that returns a wide integer, the
//! values derived from calls to wide-returning functions are computed wide,
//! narrow operands are promoted before they meet them, and what the function
//! returns is promoted to its wide return type.

use vstd::prelude::*;
use crate::mir::{BasicBlock, MirFunction, MirInstruction, MirOperand, MirProgram, MirTerminator};
use crate::mir_util::{max_nat, max_arg_ssa};
use crate::integer_upgrade::{blocks_dests, inst_dest_seq, lemma_blocks_dests_contains, lemma_unique_within};
use crate::ssa_set::{set_insert, vec_contains};
use crate::types::OnuType;

verus! {

/// Whether some function of the program named `n` returns a wide integer.
pub open spec fn returns_wide(fs: Seq<MirFunction>, n: Seq<char>) -> bool {
    exists|k: int| 0 <= k < fs.len() && (#[trigger] fs[k]).name@ == n && fs[k].return_type is WideInt
}

/// Whether `names` lists `n`.
pub open spec fn names_has(names: Seq<String>, n: Seq<char>) -> bool {
    exists|j: int| 0 <= j < names.len() && (#[trigger] names[j])@ == n
}

/// Whether `inst` calls a wide-returning function into `x`.
pub open spec fn wide_seed_inst(inst: MirInstruction, fs: Seq<MirFunction>, x: usize) -> bool {
    inst matches MirInstruction::Call { dest, name, .. } && dest == x && returns_wide(fs, name@)
}

/// Whether some instruction of the blocks calls a wide-returning function
/// into `x`.
pub open spec fn wide_seed(blocks: Seq<BasicBlock>, fs: Seq<MirFunction>, x: usize) -> bool {
    exists|b: int, i: int| 0 <= b < blocks.len() && 0 <= i < blocks[b].instructions@.len()
        && #[trigger] wide_seed_inst(blocks[b].instructions@[i], fs, x)
}

/// Whether `inst` passes the value of `x` on to `y`: a copy, or a binary
/// operation with `x` as an operand.
pub open spec fn widen_step(inst: MirInstruction, x: usize, y: usize) -> bool {
    match inst {
        MirInstruction::Assign { dest, src: MirOperand::Variable(v, _) } => v == x && dest == y,
        MirInstruction::BinaryOperation { dest, lhs, rhs, .. } => dest == y && (
            (lhs matches MirOperand::Variable(v, _) && v == x)
            || (rhs matches MirOperand::Variable(v, _) && v == x)),
        _ => false,
    }
}

/// Whether some instruction of the blocks passes `x` on to `y`.
pub open spec fn widen_edge(blocks: Seq<BasicBlock>, x: usize, y: usize) -> bool {
    exists|b: int, i: int| 0 <= b < blocks.len() && 0 <= i < blocks[b].instructions@.len()
        && #[trigger] widen_step(blocks[b].instructions@[i], x, y)
}

/// Whether `path` leads from the result of a call to a wide-returning
/// function, one copy or operation at a time, to its last element.
pub open spec fn is_widen_path(blocks: Seq<BasicBlock>, fs: Seq<MirFunction>, path: Seq<usize>) -> bool {
    &&& path.len() > 0
    &&& wide_seed(blocks, fs, path[0])
    &&& forall|i: int| 0 <= i < path.len() - 1 ==> #[trigger] widen_edge(blocks, path[i], path[i + 1])
}

/// Whether the value of `x` derives from the result of a call to a
/// wide-returning function.
pub open spec fn in_widened(blocks: Seq<BasicBlock>, fs: Seq<MirFunction>, x: usize) -> bool {
    exists|path: Seq<usize>| #[trigger] is_widen_path(blocks, fs, path) && path.last() == x
}

/// The variables that must be wide.
pub open spec fn widened(blocks: Seq<BasicBlock>, fs: Seq<MirFunction>) -> Set<usize> {
    Set::new(|x: usize| in_widened(blocks, fs, x))
}

/// Whether everything `x` is passed on to is in `c`.
pub open spec fn widen_closed_at(blocks: Seq<BasicBlock>, c: Seq<usize>, x: usize) -> bool {
    forall|b: int, i: int, y: usize| 0 <= b < blocks.len() && 0 <= i < blocks[b].instructions@.len()
        && #[trigger] widen_step(blocks[b].instructions@[i], x, y) ==> c.contains(y)
}

proof fn lemma_widen_path_next(blocks: Seq<BasicBlock>, fs: Seq<MirFunction>, path: Seq<usize>, x: usize)
    requires
        is_widen_path(blocks, fs, path),
        widen_edge(blocks, path.last(), x),
    ensures
        is_widen_path(blocks, fs, path.push(x)),
        path.push(x).last() == x,
{
    let p2 = path.push(x);
    assert forall|i: int| 0 <= i < p2.len() - 1 implies #[trigger] widen_edge(blocks, p2[i], p2[i + 1]) by {
        if i < path.len() - 1 {
            assert(widen_edge(blocks, path[i], path[i + 1]));
        }
    }
}

proof fn lemma_widen_path_in_closed(blocks: Seq<BasicBlock>, fs: Seq<MirFunction>, c: Seq<usize>, path: Seq<usize>)
    requires
        forall|z: usize| wide_seed(blocks, fs, z) ==> c.contains(z),
        forall|z: usize| c.contains(z) ==> widen_closed_at(blocks, c, z),
        is_widen_path(blocks, fs, path),
    ensures
        c.contains(path.last()),
    decreases path.len(),
{
    if path.len() > 1 {
        let pre = path.drop_last();
        assert forall|i: int| 0 <= i < pre.len() - 1 implies #[trigger] widen_edge(blocks, pre[i], pre[i + 1]) by {
            assert(widen_edge(blocks, path[i], path[i + 1]));
        }
        lemma_widen_path_in_closed(blocks, fs, c, pre);
        let i = path.len() - 2;
        assert(widen_edge(blocks, path[i], path[i + 1]));
        let y = pre.last();
        assert(widen_closed_at(blocks, c, y));
        let (b, j) = choose|b: int, j: int| 0 <= b < blocks.len() && 0 <= j < blocks[b].instructions@.len()
            && #[trigger] widen_step(blocks[b].instructions@[j], y, path.last());
        assert(widen_step(blocks[b].instructions@[j], y, path.last()));
    }
}

/// Whether `names` lists `n`.
fn has_name(names: &Vec<String>, n: &String) -> (r: bool)
    ensures
        r == names_has(names@, n@),
{
    let mut j: usize = 0;
    while j < names.len()
        invariant
            j <= names@.len(),
            forall|k: int| 0 <= k < j ==> names@[k]@ != n@,
        decreases names.len() - j,
    {
        if names[j] == *n {
            assert(names@[j as int]@ == n@);
            return true;
        }
        j = j + 1;
    }
    false
}

/// The results of calls to wide-returning functions.
fn collect_wide_seeds(blocks: &Vec<BasicBlock>, names: &Vec<String>, Ghost(fs): Ghost<Seq<MirFunction>>) -> (up: Vec<usize>)
    requires
        forall|n: Seq<char>| names_has(names@, n) <==> returns_wide(fs, n),
    ensures
        up@.no_duplicates(),
        forall|x: usize| up@.contains(x) <==> wide_seed(blocks@, fs, x),
{
    let mut up: Vec<usize> = Vec::new();
    let mut b: usize = 0;
    while b < blocks.len()
        invariant
            b <= blocks@.len(),
            up@.no_duplicates(),
            forall|n: Seq<char>| names_has(names@, n) <==> returns_wide(fs, n),
            forall|x: usize| up@.contains(x) <==> exists|bb: int, i: int| 0 <= bb < b && 0 <= i < blocks@[bb].instructions@.len()
                && #[trigger] wide_seed_inst(blocks@[bb].instructions@[i], fs, x),
        decreases blocks.len() - b,
    {
        let insts = &blocks[b].instructions;
        let mut i: usize = 0;
        while i < insts.len()
            invariant
                b < blocks@.len(),
                *insts == blocks@[b as int].instructions,
                i <= insts@.len(),
                up@.no_duplicates(),
                forall|n: Seq<char>| names_has(names@, n) <==> returns_wide(fs, n),
                forall|x: usize| up@.contains(x) <==> (
                    (exists|bb: int, ii: int| 0 <= bb < b && 0 <= ii < blocks@[bb].instructions@.len()
                        && #[trigger] wide_seed_inst(blocks@[bb].instructions@[ii], fs, x))
                    || (exists|ii: int| 0 <= ii < i && #[trigger] wide_seed_inst(insts@[ii], fs, x))),
            decreases insts.len() - i,
        {
            if let MirInstruction::Call { dest, name: n, .. } = &insts[i] {
                if has_name(names, n) {
                    proof { assert(wide_seed_inst(insts@[i as int], fs, *dest)); }
                    set_insert(&mut up, *dest);
                }
            }
            proof {
                assert forall|x: usize| up@.contains(x) <==> (
                    (exists|bb: int, ii: int| 0 <= bb < b && 0 <= ii < blocks@[bb].instructions@.len()
                        && #[trigger] wide_seed_inst(blocks@[bb].instructions@[ii], fs, x))
                    || (exists|ii: int| 0 <= ii < i + 1 && #[trigger] wide_seed_inst(insts@[ii], fs, x))) by {
                    if wide_seed_inst(insts@[i as int], fs, x) {
                        assert(exists|ii: int| 0 <= ii < i + 1 && #[trigger] wide_seed_inst(insts@[ii], fs, x));
                    }
                }
            }
            i = i + 1;
        }
        proof {
            assert forall|x: usize| up@.contains(x) <==> exists|bb: int, ii: int| 0 <= bb < b + 1 && 0 <= ii < blocks@[bb].instructions@.len()
                && #[trigger] wide_seed_inst(blocks@[bb].instructions@[ii], fs, x) by {
                if exists|ii: int| 0 <= ii < i && #[trigger] wide_seed_inst(insts@[ii], fs, x) {
                    let ii = choose|ii: int| 0 <= ii < i && #[trigger] wide_seed_inst(insts@[ii], fs, x);
                    assert(wide_seed_inst(blocks@[b as int].instructions@[ii], fs, x));
                }
                if exists|bb: int, ii: int| 0 <= bb < b + 1 && 0 <= ii < blocks@[bb].instructions@.len()
                    && #[trigger] wide_seed_inst(blocks@[bb].instructions@[ii], fs, x) {
                    let (bb, ii) = choose|bb: int, ii: int| 0 <= bb < b + 1 && 0 <= ii < blocks@[bb].instructions@.len()
                        && #[trigger] wide_seed_inst(blocks@[bb].instructions@[ii], fs, x);
                    if bb == b {
                        assert(wide_seed_inst(insts@[ii], fs, x));
                    }
                }
            }
        }
        b = b + 1;
    }
    up
}

/// The variable an instruction passes a wide operand on to, if any.
fn widen_target(inst: &MirInstruction, wide: &Vec<usize>) -> (r: Option<usize>)
    ensures
        forall|x: usize, y: usize| widen_step(*inst, x, y) && wide@.contains(x) ==> r == Some(y),
        r matches Some(y) ==> exists|x: usize| widen_step(*inst, x, y) && wide@.contains(x),
{
    match inst {
        MirInstruction::Assign { dest, src: MirOperand::Variable(v, _) } => {
            if vec_contains(wide, *v) {
                assert(widen_step(*inst, *v, *dest));
                Some(*dest)
            } else {
                None
            }
        },
        MirInstruction::BinaryOperation { dest, lhs, rhs, .. } => {
            let l = match lhs { MirOperand::Variable(v, _) => vec_contains(wide, *v), _ => false };
            let r = match rhs { MirOperand::Variable(v, _) => vec_contains(wide, *v), _ => false };
            if l {
                let ghost v = lhs->Variable_0;
                assert(widen_step(*inst, v, *dest));
                Some(*dest)
            } else if r {
                let ghost v = rhs->Variable_0;
                assert(widen_step(*inst, v, *dest));
                Some(*dest)
            } else {
                None
            }
        },
        _ => None,
    }
}

/// The variables whose values derive from the results of calls to
/// wide-returning functions, through copies and binary operations: the
/// seeds, then passes over the instructions until one adds nothing.
fn collect_widened(blocks: &Vec<BasicBlock>, names: &Vec<String>, Ghost(fs): Ghost<Seq<MirFunction>>) -> (wide: Vec<usize>)
    requires
        forall|n: Seq<char>| names_has(names@, n) <==> returns_wide(fs, n),
    ensures
        wide@.no_duplicates(),
        forall|x: usize| wide@.contains(x) <==> in_widened(blocks@, fs, x),
{
    let ghost bs = blocks@;
    let ghost ds = blocks_dests(bs);
    let mut wide = collect_wide_seeds(blocks, names, Ghost(fs));
    proof {
        assert forall|x: usize| #[trigger] wide@.contains(x) implies ds.contains(x) && in_widened(bs, fs, x) by {
            let (b, i) = choose|b: int, i: int| 0 <= b < bs.len() && 0 <= i < bs[b].instructions@.len()
                && #[trigger] wide_seed_inst(bs[b].instructions@[i], fs, x);
            assert(inst_dest_seq(bs[b].instructions@[i])[0] == x);
            lemma_blocks_dests_contains(bs, b, i, x);
            let p = seq![x];
            assert(p[0] == x);
            assert(wide_seed(bs, fs, p[0]));
            assert(is_widen_path(bs, fs, p));
            assert(p.last() == x);
        }
        lemma_unique_within(wide@, ds);
    }
    let mut changed = true;
    while changed
        invariant
            bs == blocks@,
            ds == blocks_dests(bs),
            wide@.no_duplicates(),
            wide@.len() <= ds.len(),
            forall|x: usize| wide_seed(bs, fs, x) ==> wide@.contains(x),
            forall|x: usize| wide@.contains(x) ==> in_widened(bs, fs, x),
            forall|x: usize| wide@.contains(x) ==> ds.contains(x),
            !changed ==> forall|x: usize| wide@.contains(x) ==> widen_closed_at(bs, wide@, x),
        decreases ds.len() - wide@.len(), if changed { 1int } else { 0int },
    {
        changed = false;
        let ghost w0 = wide@;
        let mut b: usize = 0;
        while b < blocks.len()
            invariant
                bs == blocks@,
                ds == blocks_dests(bs),
                b <= bs.len(),
                wide@.no_duplicates(),
                wide@.len() <= ds.len(),
                wide@.len() >= w0.len(),
                changed ==> wide@.len() > w0.len(),
                !changed ==> wide@ == w0,
                forall|x: usize| w0.contains(x) ==> wide@.contains(x),
                forall|x: usize| wide@.contains(x) ==> in_widened(bs, fs, x),
                forall|x: usize| wide@.contains(x) ==> ds.contains(x),
                !changed ==> forall|bb: int, i: int, x: usize, y: usize| 0 <= bb < b && 0 <= i < bs[bb].instructions@.len()
                    && #[trigger] widen_step(bs[bb].instructions@[i], x, y) && wide@.contains(x) ==> wide@.contains(y),
            decreases bs.len() - b,
        {
            let insts = &blocks[b].instructions;
            let mut i: usize = 0;
            while i < insts.len()
                invariant
                    bs == blocks@,
                    ds == blocks_dests(bs),
                    b < bs.len(),
                    *insts == bs[b as int].instructions,
                    i <= insts@.len(),
                    wide@.no_duplicates(),
                    wide@.len() <= ds.len(),
                    wide@.len() >= w0.len(),
                    changed ==> wide@.len() > w0.len(),
                    !changed ==> wide@ == w0,
                    forall|x: usize| w0.contains(x) ==> wide@.contains(x),
                    forall|x: usize| wide@.contains(x) ==> in_widened(bs, fs, x),
                    forall|x: usize| wide@.contains(x) ==> ds.contains(x),
                    !changed ==> forall|bb: int, ii: int, x: usize, y: usize| 0 <= bb < b && 0 <= ii < bs[bb].instructions@.len()
                        && #[trigger] widen_step(bs[bb].instructions@[ii], x, y) && wide@.contains(x) ==> wide@.contains(y),
                    !changed ==> forall|ii: int, x: usize, y: usize| 0 <= ii < i
                        && #[trigger] widen_step(insts@[ii], x, y) && wide@.contains(x) ==> wide@.contains(y),
                decreases insts.len() - i,
            {
                match widen_target(&insts[i], &wide) {
                    Some(y) => {
                        if !vec_contains(&wide, y) {
                            proof {
                                let x = choose|x: usize| widen_step(insts@[i as int], x, y) && wide@.contains(x);
                                assert(widen_step(bs[b as int].instructions@[i as int], x, y));
                                assert(widen_edge(bs, x, y));
                                let px = choose|path: Seq<usize>| #[trigger] is_widen_path(bs, fs, path) && path.last() == x;
                                lemma_widen_path_next(bs, fs, px, y);
                                assert(is_widen_path(bs, fs, px.push(y)));
                                assert(inst_dest_seq(bs[b as int].instructions@[i as int])[0] == y);
                                lemma_blocks_dests_contains(bs, b as int, i as int, y);
                            }
                            set_insert(&mut wide, y);
                            changed = true;
                            proof {
                                lemma_unique_within(wide@, ds);
                            }
                        }
                    },
                    None => {},
                }
                i = i + 1;
            }
            b = b + 1;
        }
    }
    proof {
        assert forall|x: usize| in_widened(bs, fs, x) implies wide@.contains(x) by {
            let path = choose|path: Seq<usize>| #[trigger] is_widen_path(bs, fs, path) && path.last() == x;
            lemma_widen_path_in_closed(bs, fs, wide@, path);
        }
    }
    wide
}

/// Whether an operand is a variable that must be wide.
pub open spec fn op_wide(op: MirOperand, w: Set<usize>) -> bool {
    op matches MirOperand::Variable(v, _) && w.contains(v)
}

/// The promotion of `src` into `dest` at the given width.
pub open spec fn promote_to(dest: usize, src: MirOperand, bits: u32) -> MirInstruction {
    MirInstruction::Promote { dest, src, to_type: OnuType::WideInt(bits) }
}

/// How many fresh variables an instruction's rewriting takes: one for each
/// narrow operand of a binary operation whose result must be wide.
pub open spec fn inst_promos(inst: MirInstruction, w: Set<usize>) -> nat {
    match inst {
        MirInstruction::BinaryOperation { dest, lhs, rhs, .. } =>
            if w.contains(dest) {
                (if op_wide(lhs, w) { 0nat } else { 1nat }) + (if op_wide(rhs, w) { 0nat } else { 1nat })
            } else {
                0
            },
        _ => 0,
    }
}

pub open spec fn insts_promos(insts: Seq<MirInstruction>, w: Set<usize>) -> nat
    decreases insts.len(),
{
    if insts.len() == 0 { 0 } else { insts_promos(insts.drop_last(), w) + inst_promos(insts.last(), w) }
}

/// One fresh variable when a block returns a narrow operand.
pub open spec fn term_promos(t: MirTerminator, w: Set<usize>) -> nat {
    match t {
        MirTerminator::Return(op) => if op_wide(op, w) { 0 } else { 1 },
        _ => 0,
    }
}

pub open spec fn block_promos(b: BasicBlock, w: Set<usize>) -> nat {
    insts_promos(b.instructions@, w) + term_promos(b.terminator, w)
}

pub open spec fn blocks_promos(bs: Seq<BasicBlock>, w: Set<usize>) -> nat
    decreases bs.len(),
{
    if bs.len() == 0 { 0 } else { blocks_promos(bs.drop_last(), w) + block_promos(bs.last(), w) }
}

/// What an instruction becomes when the variables of `w` are wide and the
/// last fresh variable taken is `c`: a binary operation with a wide result
/// gets its narrow operands promoted into fresh variables first; a copy of
/// a narrow operand into a wide variable becomes a promotion; a call of a
/// wide-returning function returns the function's own width.
pub open spec fn rewrite_inst(inst: MirInstruction, w: Set<usize>, fs: Seq<MirFunction>, bits: u32, c: nat) -> Seq<MirInstruction> {
    match inst {
        MirInstruction::BinaryOperation { dest, op, lhs, rhs, dest_type } =>
            if w.contains(dest) {
                let c1 = if op_wide(lhs, w) { c } else { c + 1 };
                let c2 = if op_wide(rhs, w) { c1 } else { c1 + 1 };
                let pl: Seq<MirInstruction> = if op_wide(lhs, w) { Seq::empty() } else { seq![promote_to(c1 as usize, lhs, bits)] };
                let pr: Seq<MirInstruction> = if op_wide(rhs, w) { Seq::empty() } else { seq![promote_to(c2 as usize, rhs, bits)] };
                let l2 = if op_wide(lhs, w) { lhs } else { MirOperand::Variable(c1 as usize, false) };
                let r2 = if op_wide(rhs, w) { rhs } else { MirOperand::Variable(c2 as usize, false) };
                pl + pr + seq![MirInstruction::BinaryOperation { dest, op, lhs: l2, rhs: r2, dest_type }]
            } else {
                seq![inst]
            },
        MirInstruction::Assign { dest, src } =>
            if w.contains(dest) && !op_wide(src, w) { seq![promote_to(dest, src, bits)] } else { seq![inst] },
        MirInstruction::Call { dest, name, args, return_type, arg_types, is_tail_call } =>
            if returns_wide(fs, name@) {
                seq![MirInstruction::Call { dest, name, args, return_type: OnuType::WideInt(bits), arg_types, is_tail_call }]
            } else {
                seq![inst]
            },
        _ => seq![inst],
    }
}

pub open spec fn rewrite_insts(insts: Seq<MirInstruction>, w: Set<usize>, fs: Seq<MirFunction>, bits: u32, c: nat) -> Seq<MirInstruction>
    decreases insts.len(),
{
    if insts.len() == 0 {
        Seq::empty()
    } else {
        rewrite_insts(insts.drop_last(), w, fs, bits, c)
            + rewrite_inst(insts.last(), w, fs, bits, c + insts_promos(insts.drop_last(), w))
    }
}

/// `g` is block `b` rewritten from fresh variable `c` on; a block returning
/// a narrow operand promotes it into the next fresh variable and returns
/// that.
pub open spec fn block_rewritten(b: BasicBlock, g: BasicBlock, w: Set<usize>, fs: Seq<MirFunction>, bits: u32, c: nat) -> bool {
    let body = rewrite_insts(b.instructions@, w, fs, bits, c);
    let k = c + insts_promos(b.instructions@, w);
    &&& g.id == b.id
    &&& match b.terminator {
        MirTerminator::Return(op) =>
            if op_wide(op, w) {
                g.instructions@ == body && g.terminator == b.terminator
            } else {
                &&& g.instructions@ == body.push(promote_to((k + 1) as usize, op, bits))
                &&& g.terminator == MirTerminator::Return(MirOperand::Variable((k + 1) as usize, false))
            },
        _ => g.instructions@ == body && g.terminator == b.terminator,
    }
}

/// Each block rewritten in turn, the fresh variables running on from one
/// block to the next.
pub open spec fn blocks_rewritten(bs: Seq<BasicBlock>, gs: Seq<BasicBlock>, w: Set<usize>, fs: Seq<MirFunction>, bits: u32, c: nat) -> bool {
    &&& gs.len() == bs.len()
    &&& forall|j: int| 0 <= j < bs.len() ==> #[trigger] block_rewritten(bs[j], gs[j], w, fs, bits, c + blocks_promos(bs.subrange(0, j), w))
}

/// The variable an instruction defines, among copies, binary operations,
/// calls, tuples, indexing, allocations and pointer offsets.
pub open spec fn promo_dest(inst: MirInstruction) -> Option<usize> {
    match inst {
        MirInstruction::Assign { dest, .. } => Some(dest),
        MirInstruction::BinaryOperation { dest, .. } => Some(dest),
        MirInstruction::Call { dest, .. } => Some(dest),
        MirInstruction::Tuple { dest, .. } => Some(dest),
        MirInstruction::Index { dest, .. } => Some(dest),
        MirInstruction::Alloc { dest, .. } => Some(dest),
        MirInstruction::PointerOffset { dest, .. } => Some(dest),
        _ => None,
    }
}

pub open spec fn max_promo_dest_insts(insts: Seq<MirInstruction>) -> nat
    decreases insts.len(),
{
    if insts.len() == 0 {
        0
    } else {
        max_nat(max_promo_dest_insts(insts.drop_last()), match promo_dest(insts.last()) {
            Some(d) => d as nat,
            None => 0,
        })
    }
}

pub open spec fn max_promo_dest_blocks(blocks: Seq<BasicBlock>) -> nat
    decreases blocks.len(),
{
    if blocks.len() == 0 {
        0
    } else {
        max_nat(max_promo_dest_blocks(blocks.drop_last()), max_promo_dest_insts(blocks.last().instructions@))
    }
}

/// The last variable in use before the fresh ones: the largest argument
/// variable or defined variable (0 when there is none).
pub open spec fn promo_base(f: MirFunction) -> nat {
    max_nat(max_arg_ssa(f.args@), max_promo_dest_blocks(f.blocks@))
}

/// Whether the pass rewrites `f`: it calls a wide-returning function and
/// returns a wide integer itself.
pub open spec fn promotes(f: MirFunction, fs: Seq<MirFunction>) -> bool {
    (exists|x: usize| wide_seed(f.blocks@, fs, x)) && f.return_type is WideInt
}

/// Whether the fresh variables the pass takes in `f` fit in `usize`.
pub open spec fn promotions_fit(f: MirFunction, fs: Seq<MirFunction>) -> bool {
    promotes(f, fs) ==> promo_base(f) + blocks_promos(f.blocks@, widened(f.blocks@, fs)) <= usize::MAX
}

/// `g` is `f` after promotion: when the pass rewrites `f`, its blocks are
/// rewritten at the width of its return type with fresh variables after
/// `promo_base(f)`, and the rest is kept; otherwise `f` is kept whole.
pub open spec fn promoted(f: MirFunction, g: MirFunction, fs: Seq<MirFunction>) -> bool {
    if promotes(f, fs) {
        &&& g.name == f.name
        &&& g.args == f.args
        &&& g.return_type == f.return_type
        &&& g.is_pure_data_leaf == f.is_pure_data_leaf
        &&& g.diminishing == f.diminishing
        &&& g.memo_cache_size == f.memo_cache_size
        &&& blocks_rewritten(f.blocks@, g.blocks@, widened(f.blocks@, fs), fs, f.return_type->WideInt_0, promo_base(f))
    } else {
        g == f
    }
}

/// Whether an operand is a variable listed in `wide`.
fn op_is_wide(op: &MirOperand, wide: &Vec<usize>, Ghost(w): Ghost<Set<usize>>) -> (r: bool)
    requires
        forall|x: usize| wide@.contains(x) <==> w.contains(x),
    ensures
        r == op_wide(*op, w),
{
    match op {
        MirOperand::Variable(v, _) => vec_contains(wide, *v),
        _ => false,
    }
}

/// Appends the rewriting of `inst` to `out`, taking fresh variables after
/// `c`; returns the last fresh variable taken.
fn rewrite_inst_into(
    inst: MirInstruction,
    out: &mut Vec<MirInstruction>,
    c: usize,
    wide: &Vec<usize>,
    names: &Vec<String>,
    bits: u32,
    Ghost(w): Ghost<Set<usize>>,
    Ghost(fs): Ghost<Seq<MirFunction>>,
) -> (nc: usize)
    requires
        c + inst_promos(inst, w) <= usize::MAX,
        forall|x: usize| wide@.contains(x) <==> w.contains(x),
        forall|n: Seq<char>| names_has(names@, n) <==> returns_wide(fs, n),
    ensures
        final(out)@ == old(out)@ + rewrite_inst(inst, w, fs, bits, c as nat),
        nc == c + inst_promos(inst, w),
{
    let ghost orig = inst;
    match inst {
        MirInstruction::BinaryOperation { dest, op, lhs, rhs, dest_type } => {
            if vec_contains(wide, dest) {
                let lw = op_is_wide(&lhs, wide, Ghost(w));
                let rw = op_is_wide(&rhs, wide, Ghost(w));
                let mut k = c;
                let l2 = if lw {
                    lhs
                } else {
                    k = k + 1;
                    out.push(MirInstruction::Promote { dest: k, src: lhs, to_type: OnuType::WideInt(bits) });
                    MirOperand::Variable(k, false)
                };
                let r2 = if rw {
                    rhs
                } else {
                    k = k + 1;
                    out.push(MirInstruction::Promote { dest: k, src: rhs, to_type: OnuType::WideInt(bits) });
                    MirOperand::Variable(k, false)
                };
                out.push(MirInstruction::BinaryOperation { dest, op, lhs: l2, rhs: r2, dest_type });
                proof {
                    assert(out@ =~= old(out)@ + rewrite_inst(orig, w, fs, bits, c as nat));
                }
                k
            } else {
                out.push(MirInstruction::BinaryOperation { dest, op, lhs, rhs, dest_type });
                proof {
                    assert(out@ =~= old(out)@ + rewrite_inst(orig, w, fs, bits, c as nat));
                }
                c
            }
        },
        MirInstruction::Assign { dest, src } => {
            if vec_contains(wide, dest) && !op_is_wide(&src, wide, Ghost(w)) {
                out.push(MirInstruction::Promote { dest, src, to_type: OnuType::WideInt(bits) });
            } else {
                out.push(MirInstruction::Assign { dest, src });
            }
            proof {
                assert(out@ =~= old(out)@ + rewrite_inst(orig, w, fs, bits, c as nat));
            }
            c
        },
        MirInstruction::Call { dest, name, args, return_type, arg_types, is_tail_call } => {
            if has_name(names, &name) {
                out.push(MirInstruction::Call { dest, name, args, return_type: OnuType::WideInt(bits), arg_types, is_tail_call });
            } else {
                out.push(MirInstruction::Call { dest, name, args, return_type, arg_types, is_tail_call });
            }
            proof {
                assert(out@ =~= old(out)@ + rewrite_inst(orig, w, fs, bits, c as nat));
            }
            c
        },
        other => {
            out.push(other);
            proof {
                assert(out@ =~= old(out)@ + rewrite_inst(orig, w, fs, bits, c as nat));
            }
            c
        },
    }
}

proof fn lemma_insts_promos_prefix(insts: Seq<MirInstruction>, i: int, w: Set<usize>)
    requires
        0 <= i <= insts.len(),
    ensures
        insts_promos(insts.subrange(0, i), w) <= insts_promos(insts, w),
    decreases insts.len(),
{
    if i < insts.len() {
        assert(insts.drop_last().subrange(0, i) =~= insts.subrange(0, i));
        lemma_insts_promos_prefix(insts.drop_last(), i, w);
    } else {
        assert(insts.subrange(0, i) =~= insts);
    }
}

proof fn lemma_blocks_promos_prefix(bs: Seq<BasicBlock>, i: int, w: Set<usize>)
    requires
        0 <= i <= bs.len(),
    ensures
        blocks_promos(bs.subrange(0, i), w) <= blocks_promos(bs, w),
    decreases bs.len(),
{
    if i < bs.len() {
        assert(bs.drop_last().subrange(0, i) =~= bs.subrange(0, i));
        lemma_blocks_promos_prefix(bs.drop_last(), i, w);
    } else {
        assert(bs.subrange(0, i) =~= bs);
    }
}

/// Rewrites one block from fresh variable `c` on; returns the block and the
/// last fresh variable taken.
fn rewrite_block(
    block: BasicBlock,
    c: usize,
    wide: &Vec<usize>,
    names: &Vec<String>,
    bits: u32,
    Ghost(w): Ghost<Set<usize>>,
    Ghost(fs): Ghost<Seq<MirFunction>>,
) -> (r: (BasicBlock, usize))
    requires
        c + block_promos(block, w) <= usize::MAX,
        forall|x: usize| wide@.contains(x) <==> w.contains(x),
        forall|n: Seq<char>| names_has(names@, n) <==> returns_wide(fs, n),
    ensures
        block_rewritten(block, r.0, w, fs, bits, c as nat),
        r.1 == c + block_promos(block, w),
{
    let ghost b0 = block;
    let BasicBlock { id, instructions, terminator } = block;
    let ghost is = instructions@;
    let mut insts = instructions;
    let mut out: Vec<MirInstruction> = Vec::new();
    let mut k = c;
    let mut i: usize = 0;
    while i < insts.len()
        invariant
            insts@.len() == is.len(),
            i <= is.len(),
            forall|j: int| i <= j < is.len() ==> insts@[j] == is[j],
            out@ == rewrite_insts(is.subrange(0, i as int), w, fs, bits, c as nat),
            k == c + insts_promos(is.subrange(0, i as int), w),
            c + insts_promos(is, w) <= usize::MAX,
            forall|x: usize| wide@.contains(x) <==> w.contains(x),
            forall|n: Seq<char>| names_has(names@, n) <==> returns_wide(fs, n),
        decreases is.len() - i,
    {
        let mut cur = MirInstruction::FlushStdout;
        std::mem::swap(&mut cur, &mut insts[i]);
        proof {
            let pre = is.subrange(0, i as int);
            let next = is.subrange(0, i as int + 1);
            assert(next.drop_last() =~= pre);
            assert(next.last() == is[i as int]);
            lemma_insts_promos_prefix(is, i as int + 1, w);
        }
        k = rewrite_inst_into(cur, &mut out, k, wide, names, bits, Ghost(w), Ghost(fs));
        i = i + 1;
    }
    proof {
        assert(is.subrange(0, is.len() as int) =~= is);
    }
    match terminator {
        MirTerminator::Return(op) => {
            if op_is_wide(&op, wide, Ghost(w)) {
                (BasicBlock { id, instructions: out, terminator: MirTerminator::Return(op) }, k)
            } else {
                let p = k + 1;
                out.push(MirInstruction::Promote { dest: p, src: op, to_type: OnuType::WideInt(bits) });
                (BasicBlock { id, instructions: out, terminator: MirTerminator::Return(MirOperand::Variable(p, false)) }, p)
            }
        },
        t => (BasicBlock { id, instructions: out, terminator: t }, k),
    }
}

fn promo_dest_of(inst: &MirInstruction) -> (r: Option<usize>)
    ensures
        r == promo_dest(*inst),
{
    match inst {
        MirInstruction::Assign { dest, .. } => Some(*dest),
        MirInstruction::BinaryOperation { dest, .. } => Some(*dest),
        MirInstruction::Call { dest, .. } => Some(*dest),
        MirInstruction::Tuple { dest, .. } => Some(*dest),
        MirInstruction::Index { dest, .. } => Some(*dest),
        MirInstruction::Alloc { dest, .. } => Some(*dest),
        MirInstruction::PointerOffset { dest, .. } => Some(*dest),
        _ => None,
    }
}

/// The last variable in use before the fresh ones.
fn promo_base_of(func: &MirFunction) -> (r: usize)
    ensures
        r as nat == promo_base(*func),
{
    let mut m: usize = 0;
    let mut a: usize = 0;
    while a < func.args.len()
        invariant
            a <= func.args@.len(),
            m as nat == max_arg_ssa(func.args@.subrange(0, a as int)),
        decreases func.args.len() - a,
    {
        assert(func.args@.subrange(0, a + 1).drop_last() =~= func.args@.subrange(0, a as int));
        if func.args[a].ssa_var > m {
            m = func.args[a].ssa_var;
        }
        a = a + 1;
    }
    assert(func.args@.subrange(0, func.args@.len() as int) =~= func.args@);
    let mut d: usize = 0;
    let mut b: usize = 0;
    while b < func.blocks.len()
        invariant
            b <= func.blocks@.len(),
            d as nat == max_promo_dest_blocks(func.blocks@.subrange(0, b as int)),
        decreases func.blocks.len() - b,
    {
        let insts = &func.blocks[b].instructions;
        let mut di: usize = 0;
        let mut i: usize = 0;
        while i < insts.len()
            invariant
                i <= insts@.len(),
                di as nat == max_promo_dest_insts(insts@.subrange(0, i as int)),
            decreases insts.len() - i,
        {
            assert(insts@.subrange(0, i + 1).drop_last() =~= insts@.subrange(0, i as int));
            match promo_dest_of(&insts[i]) {
                Some(x) => {
                    if x > di {
                        di = x;
                    }
                },
                None => {},
            }
            i = i + 1;
        }
        assert(insts@.subrange(0, insts@.len() as int) =~= insts@);
        assert(func.blocks@.subrange(0, b + 1).drop_last() =~= func.blocks@.subrange(0, b as int));
        if di > d {
            d = di;
        }
        b = b + 1;
    }
    assert(func.blocks@.subrange(0, func.blocks@.len() as int) =~= func.blocks@);
    if d > m { d } else { m }
}

/// Promotes one function of the program `fs`, whose wide-returning
/// functions `names` lists.
fn promote_function(func: MirFunction, names: &Vec<String>, Ghost(fs): Ghost<Seq<MirFunction>>) -> (g: MirFunction)
    requires
        promotions_fit(func, fs),
        forall|n: Seq<char>| names_has(names@, n) <==> returns_wide(fs, n),
    ensures
        promoted(func, g, fs),
{
    let ghost bs = func.blocks@;
    let ghost w = widened(bs, fs);
    let wide = collect_widened(&func.blocks, names, Ghost(fs));
    proof {
        assert forall|x: usize| wide@.contains(x) <==> w.contains(x) by {}
    }
    if wide.len() == 0 {
        proof {
            assert forall|x: usize| !wide_seed(bs, fs, x) by {
                if wide_seed(bs, fs, x) {
                    let p = seq![x];
                    assert(p[0] == x);
                    assert(is_widen_path(bs, fs, p) && p.last() == x);
                    assert(wide@.contains(x));
                }
            }
        }
        return func;
    }
    proof {
        let x = wide@[0];
        assert(wide@.contains(x));
        let path = choose|path: Seq<usize>| #[trigger] is_widen_path(bs, fs, path) && path.last() == x;
        assert(wide_seed(bs, fs, path[0]));
    }
    let bits = match &func.return_type {
        OnuType::WideInt(n) => *n,
        _ => {
            return func;
        },
    };
    let base = promo_base_of(&func);
    let ghost f0 = func;
    let MirFunction { name, args, return_type, blocks, is_pure_data_leaf, diminishing, memo_cache_size } = func;
    let mut blocks = blocks;
    let mut k = base;
    let mut b: usize = 0;
    while b < blocks.len()
        invariant
            blocks@.len() == bs.len(),
            b <= bs.len(),
            forall|j: int| b <= j < bs.len() ==> blocks@[j] == bs[j],
            forall|j: int| 0 <= j < b ==> #[trigger] block_rewritten(bs[j], blocks@[j], w, fs, bits, base as nat + blocks_promos(bs.subrange(0, j), w)),
            k == base + blocks_promos(bs.subrange(0, b as int), w),
            base + blocks_promos(bs, w) <= usize::MAX,
            forall|x: usize| wide@.contains(x) <==> w.contains(x),
            forall|n: Seq<char>| names_has(names@, n) <==> returns_wide(fs, n),
        decreases bs.len() - b,
    {
        let mut blk = BasicBlock { id: 0, instructions: Vec::new(), terminator: MirTerminator::Unreachable };
        std::mem::swap(&mut blk, &mut blocks[b]);
        proof {
            let next = bs.subrange(0, b as int + 1);
            assert(next.drop_last() =~= bs.subrange(0, b as int));
            assert(next.last() == bs[b as int]);
            lemma_blocks_promos_prefix(bs, b as int + 1, w);
        }
        let (nb, nk) = rewrite_block(blk, k, &wide, names, bits, Ghost(w), Ghost(fs));
        blocks.set(b, nb);
        k = nk;
        b = b + 1;
    }
    let g = MirFunction { name, args, return_type, blocks, is_pure_data_leaf, diminishing, memo_cache_size };
    proof {
        assert(blocks_rewritten(f0.blocks@, g.blocks@, w, fs, bits, promo_base(f0)));
    }
    g
}

/// The promotion pass.
pub struct PromotionPass;

impl PromotionPass {
    /// Promotes every function of the program, keeping their order; a
    /// program with no wide-returning function is returned as it is.
    pub fn run(program: MirProgram) -> (r: MirProgram)
        requires
            forall|k: int| 0 <= k < program.functions@.len() ==> promotions_fit(#[trigger] program.functions@[k], program.functions@),
        ensures
            r.functions@.len() == program.functions@.len(),
            forall|k: int| 0 <= k < program.functions@.len() ==> promoted(#[trigger] program.functions@[k], r.functions@[k], program.functions@),
            (forall|k: int| 0 <= k < program.functions@.len() ==> !((#[trigger] program.functions@[k]).return_type is WideInt)) ==> r == program,
    {
        let ghost fs = program.functions@;
        let mut names: Vec<String> = Vec::new();
        let mut k: usize = 0;
        while k < program.functions.len()
            invariant
                fs == program.functions@,
                k <= fs.len(),
                forall|n: Seq<char>| names_has(names@, n) <==> exists|j: int| 0 <= j < k && (#[trigger] fs[j]).name@ == n && fs[j].return_type is WideInt,
            decreases fs.len() - k,
        {
            let f = &program.functions[k];
            if let OnuType::WideInt(_) = &f.return_type {
                let ghost old_names = names@;
                names.push(f.name.clone());
                proof {
                    assert forall|n: Seq<char>| names_has(names@, n) <==> exists|j: int| 0 <= j < k + 1 && (#[trigger] fs[j]).name@ == n && fs[j].return_type is WideInt by {
                        if names_has(names@, n) {
                            let jj = choose|jj: int| 0 <= jj < names@.len() && (#[trigger] names@[jj])@ == n;
                            if jj < old_names.len() {
                                assert(old_names[jj] == names@[jj]);
                                assert(names_has(old_names, n));
                                let j = choose|j: int| 0 <= j < k && (#[trigger] fs[j]).name@ == n && fs[j].return_type is WideInt;
                                assert(0 <= j < k + 1 && fs[j].name@ == n && fs[j].return_type is WideInt);
                            } else {
                                assert(fs[k as int].name@ == n);
                            }
                        }
                        if exists|j: int| 0 <= j < k + 1 && (#[trigger] fs[j]).name@ == n && fs[j].return_type is WideInt {
                            let j = choose|j: int| 0 <= j < k + 1 && (#[trigger] fs[j]).name@ == n && fs[j].return_type is WideInt;
                            if j == k {
                                assert(names@[old_names.len() as int]@ == n);
                            } else {
                                assert(0 <= j < k && fs[j].name@ == n && fs[j].return_type is WideInt);
                                assert(names_has(old_names, n));
                                let jj = choose|jj: int| 0 <= jj < old_names.len() && (#[trigger] old_names[jj])@ == n;
                                assert(names@[jj] == old_names[jj]);
                            }
                        }
                    }
                }
            }
            k = k + 1;
        }
        if names.len() == 0 {
            proof {
                assert forall|n: Seq<char>| !returns_wide(fs, n) by {
                    if returns_wide(fs, n) {
                        let j = choose|j: int| 0 <= j < fs.len() && (#[trigger] fs[j]).name@ == n && fs[j].return_type is WideInt;
                        assert(names_has(names@, n));
                    }
                }
                assert forall|j: int| 0 <= j < fs.len() implies promoted(#[trigger] fs[j], fs[j], fs) by {
                    assert forall|x: usize| !wide_seed(fs[j].blocks@, fs, x) by {
                        if wide_seed(fs[j].blocks@, fs, x) {
                            let (b, i) = choose|b: int, i: int| 0 <= b < fs[j].blocks@.len() && 0 <= i < fs[j].blocks@[b].instructions@.len()
                                && #[trigger] wide_seed_inst(fs[j].blocks@[b].instructions@[i], fs, x);
                            assert(wide_seed_inst(fs[j].blocks@[b].instructions@[i], fs, x));
                        }
                    }
                }
            }
            return program;
        }
        proof {
            let n = names@[0]@;
            assert(names_has(names@, n));
            let j = choose|j: int| 0 <= j < fs.len() && (#[trigger] fs[j]).name@ == n && fs[j].return_type is WideInt;
            assert(fs[j].return_type is WideInt);
        }
        let MirProgram { functions } = program;
        let mut functions = functions;
        let mut k: usize = 0;
        while k < functions.len()
            invariant
                functions@.len() == fs.len(),
                k <= fs.len(),
                forall|j: int| k <= j < fs.len() ==> functions@[j] == fs[j],
                forall|j: int| 0 <= j < k ==> promoted(#[trigger] fs[j], functions@[j], fs),
                forall|j: int| 0 <= j < fs.len() ==> promotions_fit(#[trigger] fs[j], fs),
                forall|n: Seq<char>| names_has(names@, n) <==> returns_wide(fs, n),
            decreases fs.len() - k,
        {
            let mut f = MirFunction {
                name: String::new(),
                args: Vec::new(),
                return_type: OnuType::Nothing,
                blocks: Vec::new(),
                is_pure_data_leaf: false,
                diminishing: Vec::new(),
                memo_cache_size: None,
            };
            std::mem::swap(&mut f, &mut functions[k]);
            proof { assert(promotions_fit(fs[k as int], fs)); }
            functions.set(k, promote_function(f, &names, Ghost(fs)));
            k = k + 1;
        }
        MirProgram { functions }
    }
}

} // verus!
