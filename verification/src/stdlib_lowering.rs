//! Lowering of the standard behaviors that the MIR spells out itself rather
//! than calling: joining two texts into a new dynamic text.

use vstd::prelude::*;
use crate::mir::{MirBinOp, MirOperand};
use crate::mir_builder::MirBuilder;
use crate::lowering_rel::{joined, trace};
use crate::mir_lowering::{release_operand, same_header};
use crate::types::OnuType;

verus! {

/// The standard behaviors lowered in place.
pub struct StdlibLowering;

/// The SSA variables a join takes.
pub open spec fn join_width() -> nat {
    8
}

impl StdlibLowering {
    /// `lhs joined-with rhs`: a buffer the size of both texts is allocated,
    /// each text copied into it in turn, and a new dynamic text tuple
    /// `(length, buffer, true)` made of it; consumed inputs are released
    /// afterwards (a dynamic one dropped).
    pub fn lower_joined_with(lhs: &MirOperand, rhs: &MirOperand, builder: &mut MirBuilder) -> (r: MirOperand)
        requires
            old(builder).wf(),
            old(builder)@.next_ssa + join_width() <= usize::MAX,
        ensures
            final(builder).wf(),
            same_header(old(builder)@, final(builder)@),
            final(builder)@.scopes == old(builder)@.scopes,
            final(builder)@.blocks.len() == old(builder)@.blocks.len(),
            final(builder)@.next_ssa == old(builder)@.next_ssa + join_width(),
            r == MirOperand::Variable((old(builder)@.next_ssa + 7) as usize, true),
            final(builder)@.dynamic.contains_key((old(builder)@.next_ssa + 7) as usize),
            final(builder)@.dynamic[(old(builder)@.next_ssa + 7) as usize],
            joined(*lhs, *rhs, old(builder)@, final(builder)@),
    {
        let ghost a = builder@;
        let len_a = builder.new_ssa();
        builder.build_index(len_a, lhs.dup(), 0);
        let ghost m0 = builder@;
        let len_b = builder.new_ssa();
        builder.build_index(len_b, rhs.dup(), 0);
        let ghost m1 = builder@;
        let total = builder.new_ssa();
        builder.build_binop(total, MirBinOp::Add, MirOperand::Variable(len_a, false), MirOperand::Variable(len_b, false), OnuType::I64);
        let ghost m2 = builder@;
        let buf = builder.new_ssa();
        builder.build_alloc(buf, MirOperand::Variable(total, false));
        let ghost m3 = builder@;
        let ptr_a = builder.new_ssa();
        builder.build_index(ptr_a, lhs.dup(), 1);
        let ghost m4 = builder@;
        builder.build_memcpy(MirOperand::Variable(buf, false), MirOperand::Variable(ptr_a, false), MirOperand::Variable(len_a, false));
        let ghost m5 = builder@;
        let ptr_b = builder.new_ssa();
        builder.build_index(ptr_b, rhs.dup(), 1);
        let ghost m6 = builder@;
        let tail = builder.new_ssa();
        builder.build_pointer_offset(tail, MirOperand::Variable(buf, false), MirOperand::Variable(len_a, false));
        let ghost m7 = builder@;
        builder.build_memcpy(MirOperand::Variable(tail, false), MirOperand::Variable(ptr_b, false), MirOperand::Variable(len_b, false));
        let ghost m8 = builder@;
        let dest = builder.new_ssa();
        builder.build_string_tuple(dest, MirOperand::Variable(total, false), MirOperand::Variable(buf, false), true);
        let ghost m9 = builder@;
        release_operand(lhs, builder, "join_lhs_");
        let ghost m10 = builder@;
        release_operand(rhs, builder, "join_rhs_");
        proof {
            reveal_strlit("join_lhs_");
            reveal_strlit("join_rhs_");
            let ms = seq![m0, m1, m2, m3, m4, m5, m6, m7, m8, m9, m10];
            assert(trace(ms, Seq::empty()));
        }
        MirOperand::Variable(dest, true)
    }
}

} // verus!
