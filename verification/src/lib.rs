//! An optimizing interpreter for the eight-instruction tape language
//! `+ - > < . , [ ]`, with a small source preprocessor.
//!
//! The pipeline is linear. [`bfpp`] preprocesses a source; [`parse`] filters
//! it down to opcodes, [`brackets`] pairs up the loop delimiters, [`ir`]
//! builds the instruction stream, [`opt`] rewrites it, and [`vm`] executes it
//! against a growable byte tape, reading from and writing to the streams of
//! [`io`]. [`compile`] runs the stages up to the optimizer in one go.
//!
//! What the stages promise is stated over mathematical models: [`nesting`]
//! and [`balance`] say what matching brackets are, [`machine`] says what a
//! run of the machine is, [`text`] and [`chars`] say what is written where
//! text is written.
//!
//! What holds of the stages together is proved beside them: [`passes`] shows
//! that the optimizer passes keep the jumps balanced, and what merging leaves
//! adjacent; [`equivalence`] shows that the optimized program does what the
//! given one does, from the parts in [`agree`], [`runs`], [`merge_sound`],
//! [`loops_sound`] and [`analysis_sound`].

pub mod agree;
pub mod analysis_sound;
pub mod balance;
pub mod bfpp;
pub mod brackets;
pub mod chars;
pub mod equivalence;
pub mod io;
pub mod ir;
pub mod loops_sound;
pub mod machine;
pub mod merge_sound;
pub mod nesting;
pub mod opt;
pub mod parse;
pub mod passes;
pub mod runs;
pub mod text;
pub mod vm;

use crate::brackets::{build_jumps, is_jump_table, reports_imbalance, steps};
use crate::ir::{
    build, jump_steps, lower_one, lowered, lowered_prefix, program, unlinked, well_linked, Instr,
    Op,
};
use crate::nesting::{balanced, lemma_pairs_unique_close, lemma_pairs_unique_open, pairs};
use crate::opt::{
    analyzed, linked, loop_analysis, merge_ops, merged, partner, peephole, rebuild_jumps,
    relink_limit, relinked, reports_unlinkable,
};
use crate::parse::{filter_ops, filtered, is_op, lemma_filtered_all_ops, CLOSE, OPEN};
use crate::passes::{lemma_analyzed_balanced, lemma_merged_balanced};
use vstd::prelude::*;

verus! {

/// What the optimizer makes of a program: runs merged, jumps relinked, loops
/// recognized, runs merged again, jumps relinked again.
pub open spec fn optimized(p: Seq<Op>) -> Seq<Op> {
    linked(merged(analyzed(linked(merged(p)))))
}

/// Runs the optimizer passes in their fixed order. Succeeds exactly on
/// programs whose jumps are balanced; on the others the first relinking
/// fails, after the first merging.
pub fn optimize(ir: &mut Vec<Instr>) -> (r: Result<(), String>)
    ensures
        r is Ok <==> balanced(jump_steps(program(old(ir)@))),
        r is Ok ==> program(final(ir)@) == optimized(program(old(ir)@)) && well_linked(
            program(final(ir)@),
        ),
        r matches Err(e) ==> relinked(
            merged(program(old(ir)@)),
            program(final(ir)@),
            relink_limit(merged(program(old(ir)@))),
        ) && exists|n: int| reports_unlinkable(merged(program(old(ir)@)), n, e@),
{
    let ghost given = program(ir@);
    proof {
        lemma_merged_balanced(given);
    }
    merge_ops(ir);
    let ghost first = program(ir@);
    match rebuild_jumps(ir) {
        Ok(()) => {},
        Err(e) => {
            return Err(e);
        },
    }
    let ghost second = program(ir@);
    proof {
        lemma_analyzed_balanced(second);
        lemma_merged_balanced(analyzed(second));
    }
    assert(balanced(jump_steps(merged(analyzed(second)))));
    loop_analysis(ir);
    peephole(ir);
    assert(program(ir@) == merged(analyzed(second)));
    match rebuild_jumps(ir) {
        Ok(()) => {},
        Err(e) => {
            assert(false);
            return Err(e);
        },
    }
    Ok(())
}

/// The instruction for each opcode of a filtered program, `[` and `]` with
/// the index of their partner.
pub open spec fn instructions(ops: Seq<u8>) -> Seq<Op> {
    Seq::new(ops.len(), |i: int| lower_one(ops[i], partner(steps(ops), i) as usize)->0)
}

/// With a jump table, what is built for a filtered program is the sequence
/// of its [`instructions`], and satisfies the jump invariant.
pub proof fn lemma_build_instructions(ops: Seq<u8>, jumps: Seq<usize>)
    requires
        ops.len() <= usize::MAX,
        forall|i: int| 0 <= i < ops.len() ==> is_op(#[trigger] ops[i]),
        balanced(steps(ops)),
        is_jump_table(ops, jumps),
    ensures
        forall|n: int| !unlinked(ops, jumps, n),
        lowered(ops, jumps) == instructions(ops),
        jump_steps(instructions(ops)) == steps(ops),
        well_linked(instructions(ops)),
{
    let d = steps(ops);
    assert forall|n: int| !unlinked(ops, jumps, n) by {
        if 0 <= n < ops.len() {
            if ops[n] == OPEN {
                assert(pairs(d, n, jumps[n] as int));
            } else if ops[n] == CLOSE {
                assert(pairs(d, jumps[n] as int, n));
            }
        }
    }
    lemma_lowered_prefix(ops, jumps, ops.len() as int);
    assert(lowered(ops, jumps) =~= instructions(ops));
    let p = instructions(ops);
    assert(jump_steps(p) =~= d);
    assert forall|i: int| 0 <= i < p.len() implies {
        &&& #[trigger] p[i] matches Op::Jz(t) ==> pairs(d, i, t as int)
        &&& p[i] matches Op::Jnz(t) ==> pairs(d, t as int, i)
    } by {
        if ops[i] == OPEN {
            assert(pairs(d, i, jumps[i] as int));
        } else if ops[i] == CLOSE {
            assert(pairs(d, jumps[i] as int, i));
        }
    }
}

/// The instructions for the first `n` opcodes of a filtered program, one by
/// one.
proof fn lemma_lowered_prefix(ops: Seq<u8>, jumps: Seq<usize>, n: int)
    requires
        0 <= n <= ops.len() <= usize::MAX,
        forall|i: int| 0 <= i < ops.len() ==> is_op(#[trigger] ops[i]),
        balanced(steps(ops)),
        is_jump_table(ops, jumps),
    ensures
        lowered_prefix(ops, jumps, n).len() == n,
        forall|i: int| 0 <= i < n ==> #[trigger] lowered_prefix(ops, jumps, n)[i] == instructions(
            ops,
        )[i],
    decreases n,
{
    if n > 0 {
        lemma_lowered_prefix(ops, jumps, n - 1);
        let d = steps(ops);
        let i = n - 1;
        assert(is_op(ops[i]));
        if ops[i] == OPEN {
            assert(pairs(d, i, jumps[i] as int));
            let j = partner(d, i);
            lemma_pairs_unique_close(d, i, jumps[i] as int, j);
        } else if ops[i] == CLOSE {
            assert(pairs(d, jumps[i] as int, i));
            let j = partner(d, i);
            lemma_pairs_unique_open(d, jumps[i] as int, j, i);
        }
        let rest = lowered_prefix(ops, jumps, n - 1);
        let here = lowered_prefix(ops, jumps, n);
        assert(here == rest.push(lower_one(ops[i], jumps[i])->0));
        assert forall|k: int| 0 <= k < n implies #[trigger] here[k] == instructions(ops)[k] by {
            if k < n - 1 {
                assert(here[k] == rest[k]);
            }
        }
    }
}

/// Compiles a source: filters it down to its opcodes, matches the brackets,
/// builds the instructions and, where `optimize` is set, optimizes them.
/// Fails exactly on sources whose brackets are not balanced.
pub fn compile(source: &[u8], optimize: bool) -> (r: Result<Vec<Instr>, String>)
    ensures
        r is Ok <==> balanced(steps(filtered(source@))),
        r matches Ok(ir) ==> well_linked(program(ir@)) && program(ir@) == if optimize {
            optimized(instructions(filtered(source@)))
        } else {
            instructions(filtered(source@))
        },
        r matches Err(e) ==> exists|n: int| reports_imbalance(filtered(source@), n, e@),
{
    let ops = filter_ops(source);
    proof {
        lemma_filtered_all_ops(source@);
    }
    let jumps = match build_jumps(ops.as_slice()) {
        Ok(jumps) => jumps,
        Err(e) => {
            let ghost n = choose|n: int| reports_imbalance(ops@, n, e@);
            let r: Result<Vec<Instr>, String> = Err(e);
            assert(r matches Err(x) && reports_imbalance(filtered(source@), n, x@));
            return r;
        },
    };
    proof {
        assert(ops@.len() == ops.len());
        lemma_build_instructions(ops@, jumps@);
    }
    let mut ir = match build(ops.as_slice(), jumps.as_slice()) {
        Ok(ir) => ir,
        Err(e) => {
            return Err(e);
        },
    };
    if optimize {
        match self::optimize(&mut ir) {
            Ok(()) => {},
            Err(e) => {
                return Err(e);
            },
        }
    }
    Ok(ir)
}

} // verus!
