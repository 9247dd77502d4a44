//! The optimizer keeps what a program does: a run that comes to its end
//! comes to the same end, in no more steps, after optimization.

use crate::agree::{cell_at, follows, lemma_follows_self, lemma_follows_trans};
use crate::analysis_sound::{analyzed_linked, lemma_analysis_sim, lemma_next_stop, next_stop, seat};
use crate::ir::{jump_step, jump_steps, well_linked, Op};
use crate::machine::{run_n, Limits, State};
use crate::merge_sound::{
    lemma_chunks_len, lemma_merge_sim, lemma_run_sum_bound, merged_linked, placed,
};
use crate::nesting::balanced;
use crate::opt::{
    analyzed, analyzed_from, chunks, lemma_linked_well, linked, merged, merged_from, partner,
    run_end, run_sum,
};
use crate::brackets::{steps, NO_JUMP};
use crate::nesting::pairs;
use crate::opt::lemma_partner_exists;
use crate::parse::{is_op, CLOSE, OPEN};
use crate::{lemma_build_instructions, optimized, instructions};
use crate::passes::{lemma_analyzed_balanced, lemma_merged_balanced, lemma_run_span};
use vstd::prelude::*;

verus! {

/// Merging makes a program no longer.
pub proof fn lemma_merged_len(p: Seq<Op>, i: int)
    requires
        0 <= i <= p.len(),
    ensures
        merged_from(p, i).len() <= p.len() - i,
    decreases p.len() - i,
{
    if i < p.len() {
        if p[i] is Add || p[i] is Move {
            let e = run_end(p, i);
            lemma_run_span(p, i);
            lemma_run_sum_bound(p, i, e);
            lemma_chunks_len(p[i] is Add, run_sum(p, i, e), e - i);
            lemma_merged_len(p, e);
        } else {
            lemma_merged_len(p, i + 1);
        }
    }
}

/// Loop recognition makes a program no longer.
pub proof fn lemma_analyzed_len(p: Seq<Op>, i: int)
    requires
        0 <= i <= p.len(),
    ensures
        analyzed_from(p, i).len() <= p.len() - i,
    decreases p.len() - i,
{
    if i < p.len() {
        lemma_next_stop(p, i);
        lemma_analyzed_len(p, next_stop(p, i));
    }
}

/// Whether two programs are the same but for the targets of their jumps.
pub open spec fn same_shape(x: Seq<Op>, y: Seq<Op>) -> bool {
    &&& x.len() == y.len()
    &&& forall|i: int|
        0 <= i < x.len() ==> jump_step(#[trigger] x[i]) == jump_step(y[i]) && (jump_step(x[i]) == 0
            ==> x[i] == y[i])
}

/// Runs end at the same place in programs of the same shape, with the same
/// sum.
proof fn lemma_shape_run(x: Seq<Op>, y: Seq<Op>, i: int)
    requires
        same_shape(x, y),
        0 <= i < x.len(),
    ensures
        run_end(x, i) == run_end(y, i),
        forall|e: int| i <= e <= x.len() ==> run_sum(x, i, e) == #[trigger] run_sum(y, i, e),
    decreases x.len() - i,
{
    assert(jump_step(x[i]) == jump_step(y[i]));
    if i + 1 < x.len() {
        assert(jump_step(x[i + 1]) == jump_step(y[i + 1]));
        lemma_shape_run(x, y, i + 1);
    }
    assert forall|e: int| i <= e <= x.len() implies run_sum(x, i, e) == #[trigger] run_sum(
        y,
        i,
        e,
    ) by {
        lemma_shape_sum(x, y, i, e);
    }
}

/// The deltas of programs of the same shape sum to the same.
proof fn lemma_shape_sum(x: Seq<Op>, y: Seq<Op>, i: int, e: int)
    requires
        same_shape(x, y),
        0 <= i <= e <= x.len(),
    ensures
        run_sum(x, i, e) == run_sum(y, i, e),
    decreases e - i,
{
    if i < e {
        lemma_shape_sum(x, y, i, e - 1);
        assert(jump_step(x[e - 1]) == jump_step(y[e - 1]));
    }
}

/// Merging programs of the same shape gives programs of the same shape.
proof fn lemma_shape_merged(x: Seq<Op>, y: Seq<Op>, i: int)
    requires
        same_shape(x, y),
        0 <= i <= x.len(),
    ensures
        same_shape(merged_from(x, i), merged_from(y, i)),
    decreases x.len() - i,
{
    if i < x.len() {
        assert(jump_step(x[i]) == jump_step(y[i]));
        if x[i] is Add || x[i] is Move {
            let e = run_end(x, i);
            lemma_run_span(x, i);
            lemma_shape_run(x, y, i);
            lemma_shape_merged(x, y, e);
            let run = chunks(x[i] is Add, run_sum(x, i, e));
            let mx = merged_from(x, i);
            let my = merged_from(y, i);
            assert(mx == run + merged_from(x, e));
            assert(my == run + merged_from(y, e));
            assert forall|k: int| 0 <= k < mx.len() implies jump_step(#[trigger] mx[k])
                == jump_step(my[k]) && (jump_step(mx[k]) == 0 ==> mx[k] == my[k]) by {
                if k >= run.len() {
                    assert(mx[k] == merged_from(x, e)[k - run.len()]);
                    assert(my[k] == merged_from(y, e)[k - run.len()]);
                }
            }
        } else {
            lemma_shape_merged(x, y, i + 1);
            let mx = merged_from(x, i);
            let my = merged_from(y, i);
            assert forall|k: int| 0 <= k < mx.len() implies jump_step(#[trigger] mx[k])
                == jump_step(my[k]) && (jump_step(mx[k]) == 0 ==> mx[k] == my[k]) by {
                if k >= 1 {
                    assert(mx[k] == merged_from(x, i + 1)[k - 1]);
                    assert(my[k] == merged_from(y, i + 1)[k - 1]);
                }
            }
        }
    }
}

/// Linking programs of the same shape gives the same program.
proof fn lemma_shape_linked(x: Seq<Op>, y: Seq<Op>)
    requires
        same_shape(x, y),
    ensures
        linked(x) == linked(y),
{
    assert(jump_steps(x) =~= jump_steps(y)) by {
        assert forall|i: int| 0 <= i < x.len() implies jump_steps(x)[i] == jump_steps(y)[i] by {
            assert(jump_step(x[i]) == jump_step(y[i]));
        }
    }
    assert forall|i: int| 0 <= i < x.len() implies linked(x)[i] == linked(y)[i] by {
        assert(jump_step(x[i]) == jump_step(y[i]));
    }
    assert(linked(x) =~= linked(y));
}

/// The optimized program is the given one, merged and linked, its loops
/// recognized and linked, and merged and linked again.
pub proof fn lemma_optimized_stages(p: Seq<Op>)
    requires
        p.len() <= usize::MAX,
        balanced(jump_steps(p)),
    ensures
        optimized(p) == merged_linked(analyzed_linked(merged_linked(p))),
        merged(p).len() <= p.len(),
        analyzed(merged_linked(p)).len() <= p.len(),
        merged(analyzed_linked(merged_linked(p))).len() <= p.len(),
        well_linked(merged_linked(p)),
        well_linked(analyzed_linked(merged_linked(p))),
        well_linked(optimized(p)),
{
    lemma_merged_len(p, 0);
    lemma_merged_balanced(p);
    lemma_linked_well(merged(p));
    let once = merged_linked(p);
    lemma_analyzed_len(once, 0);
    lemma_analyzed_balanced(once);
    let y = analyzed(once);
    lemma_linked_well(y);
    let twice = analyzed_linked(once);
    lemma_merged_len(twice, 0);
    lemma_merged_balanced(twice);
    lemma_linked_well(merged(twice));
    lemma_shape_merged(twice, y, 0);
    lemma_shape_linked(merged(twice), merged(y));
}

/// The optimizer keeps what a program does. Where the run of a program that
/// satisfies the jump invariant comes to its end, the run of the optimized
/// program from the same state comes to its end too, in no more steps, with
/// the same output written, the same input left, the pointer on the same
/// cell, and every cell holding the same, a cell beyond the end of a tape
/// counting as zero.
///
/// Nothing is said of a run that stops on a fault: the optimized program may
/// get past a fault of the given one, as it does where the pointer is
/// moved left of the tape and back at once.
pub proof fn lemma_optimized_equivalent(p: Seq<Op>, s: State, lim: Limits, n: nat) -> (m: nat)
    requires
        well_linked(p),
        p.len() <= usize::MAX,
        !lim.tracing,
        s.ip == 0,
        s.m.wf(),
        s.m.cells.len() <= lim.cap <= usize::MAX,
        0 <= s.steps,
        run_n(p, s, lim, n).1 is Done,
    ensures
        m <= n,
        run_n(optimized(p), s, lim, m).1 is Done,
        run_n(optimized(p), s, lim, m).0.output == run_n(p, s, lim, n).0.output,
        run_n(optimized(p), s, lim, m).0.input == run_n(p, s, lim, n).0.input,
        run_n(optimized(p), s, lim, m).0.m.pointer == run_n(p, s, lim, n).0.m.pointer,
        forall|i: int|
            cell_at(run_n(optimized(p), s, lim, m).0.m, i) == #[trigger] cell_at(
                run_n(p, s, lim, n).0.m,
                i,
            ),
        run_n(optimized(p), s, lim, m).0.steps <= run_n(p, s, lim, n).0.steps,
        follows(run_n(optimized(p), s, lim, m).0, run_n(p, s, lim, n).0, lim.cap),
{
    lemma_optimized_stages(p);
    lemma_follows_self(s, lim.cap);
    let once = merged_linked(p);
    let twice = analyzed_linked(once);
    assert(placed(p, 0) == 0);
    let m1 = lemma_merge_sim(p, s, s, lim, n);
    assert(seat(once, 0) == 0);
    let m2 = lemma_analysis_sim(once, s, s, lim, m1);
    assert(placed(twice, 0) == 0);
    let m3 = lemma_merge_sim(twice, s, s, lim, m2);
    let r0 = run_n(p, s, lim, n).0;
    let r1 = run_n(once, s, lim, m1).0;
    let r2 = run_n(twice, s, lim, m2).0;
    let r3 = run_n(optimized(p), s, lim, m3).0;
    lemma_follows_trans(r2, r1, r0, lim.cap);
    lemma_follows_trans(r3, r2, r0, lim.cap);
    m3
}

/// The instructions of a filtered program with balanced brackets satisfies
/// the jump invariant.
pub proof fn lemma_instructions_linked(ops: Seq<u8>)
    requires
        ops.len() <= usize::MAX,
        forall|i: int| 0 <= i < ops.len() ==> is_op(#[trigger] ops[i]),
        balanced(steps(ops)),
    ensures
        well_linked(instructions(ops)),
        instructions(ops).len() == ops.len(),
{
    let d = steps(ops);
    let jumps = Seq::new(
        ops.len(),
        |i: int|
            if ops[i] == OPEN || ops[i] == CLOSE {
                partner(d, i) as usize
            } else {
                NO_JUMP
            },
    );
    assert forall|i: int| 0 <= i < ops.len() implies {
        &&& ops[i] == OPEN ==> pairs(d, i, #[trigger] jumps[i] as int)
        &&& ops[i] == CLOSE ==> pairs(d, jumps[i] as int, i)
        &&& ops[i] != OPEN && ops[i] != CLOSE ==> jumps[i] == NO_JUMP
    } by {
        lemma_partner_exists(d, i);
        if ops[i] == OPEN {
            let j = partner(d, i);
            assert(pairs(d, i, j));
        } else if ops[i] == CLOSE {
            let j = partner(d, i);
            assert(pairs(d, j, i));
        }
    }
    lemma_build_instructions(ops, jumps);
}

/// What a source does is what its optimized program does: where the run of
/// the instructions of a filtered source with balanced brackets comes to its
/// end, so does the run of the optimized program, in no more steps and with
/// the same result.
pub proof fn lemma_source_equivalent(ops: Seq<u8>, s: State, lim: Limits, n: nat) -> (m: nat)
    requires
        ops.len() <= usize::MAX,
        forall|i: int| 0 <= i < ops.len() ==> is_op(#[trigger] ops[i]),
        balanced(steps(ops)),
        !lim.tracing,
        s.ip == 0,
        s.m.wf(),
        s.m.cells.len() <= lim.cap <= usize::MAX,
        0 <= s.steps,
        run_n(instructions(ops), s, lim, n).1 is Done,
    ensures
        m <= n,
        run_n(optimized(instructions(ops)), s, lim, m).1 is Done,
        follows(
            run_n(optimized(instructions(ops)), s, lim, m).0,
            run_n(instructions(ops), s, lim, n).0,
            lim.cap,
        ),
{
    lemma_instructions_linked(ops);
    lemma_optimized_equivalent(instructions(ops), s, lim, n)
}

} // verus!
