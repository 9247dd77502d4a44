//! What the optimizer passes keep: the balance of the jumps, so that
//! relinking succeeds after a pass exactly if it would have before.

use crate::balance::{
    lemma_balanced_settles, lemma_settles_loop, lemma_settles_one, lemma_settles_zeros, settles,
};
use crate::ir::{jump_step, jump_steps, Op};
use crate::nesting::balanced;
use crate::opt::{
    addto_at, analyzed, analyzed_from, chunks, clear_at, delta, is_linear_loop, linear, loop_body,
    merged, merged_from, run_end, run_sum, same_kind, scan_at,
};
use vstd::prelude::*;

verus! {

/// The steps of a joined program are the joined steps.
pub proof fn lemma_steps_concat(a: Seq<Op>, b: Seq<Op>)
    ensures
        jump_steps(a + b) == jump_steps(a) + jump_steps(b),
{
    assert(jump_steps(a + b) =~= jump_steps(a) + jump_steps(b));
}

/// The instructions that a run merges into are no jumps.
pub proof fn lemma_chunks_flat(adds: bool, total: int)
    ensures
        forall|k: int|
            0 <= k < chunks(adds, total).len() ==> jump_step(#[trigger] chunks(adds, total)[k])
                == 0,
    decreases
        if total < 0 {
            -total
        } else {
            total
        },
{
    let c = chunks(adds, total);
    if total > i32::MAX {
        let rest = chunks(adds, total - i32::MAX);
        lemma_chunks_flat(adds, total - i32::MAX);
        assert forall|k: int| 0 <= k < c.len() implies jump_step(#[trigger] c[k]) == 0 by {
            if k > 0 {
                assert(c[k] == rest[k - 1]);
            }
        }
    } else if total < i32::MIN {
        let rest = chunks(adds, total - i32::MIN);
        lemma_chunks_flat(adds, total - i32::MIN);
        assert forall|k: int| 0 <= k < c.len() implies jump_step(#[trigger] c[k]) == 0 by {
            if k > 0 {
                assert(c[k] == rest[k - 1]);
            }
        }
    }
}

/// A run lies within the program, and is of one kind.
pub proof fn lemma_run_span(p: Seq<Op>, i: int)
    requires
        0 <= i < p.len(),
        p[i] is Add || p[i] is Move,
    ensures
        i < run_end(p, i) <= p.len(),
        forall|k: int| i <= k < run_end(p, i) ==> same_kind(p[i], #[trigger] p[k]),
    decreases p.len() - i,
{
    if i + 1 < p.len() && same_kind(p[i], p[i + 1]) {
        lemma_run_span(p, i + 1);
        assert forall|k: int| i <= k < run_end(p, i) implies same_kind(p[i], #[trigger] p[k]) by {
            if k > i {
                assert(same_kind(p[i + 1], p[k]));
            }
        }
    }
}

/// Whether every instruction of `p[i..e]` is no jump.
pub open spec fn flat(p: Seq<Op>, i: int, e: int) -> bool {
    forall|k: int| i <= k < e ==> jump_step(#[trigger] p[k]) == 0
}

/// Skipping a stretch without jumps changes nothing for the balance.
proof fn lemma_skip_flat(p: Seq<Op>, i: int, e: int, h: int)
    requires
        0 <= i <= e <= p.len(),
        h >= 0,
        flat(p, i, e),
    ensures
        settles(jump_steps(p.skip(i)), h) <==> settles(jump_steps(p.skip(e)), h),
{
    let z = jump_steps(p.subrange(i, e));
    assert(p.skip(i) =~= p.subrange(i, e) + p.skip(e));
    lemma_steps_concat(p.subrange(i, e), p.skip(e));
    assert forall|k: int| 0 <= k < z.len() implies #[trigger] z[k] == 0 by {
        assert(p.subrange(i, e)[k] == p[i + k]);
    }
    lemma_settles_zeros(z, jump_steps(p.skip(e)), h);
}

/// Skipping a loop without jumps inside changes nothing for the balance.
proof fn lemma_skip_loop(p: Seq<Op>, i: int, t: int, h: int)
    requires
        0 <= i < t < p.len(),
        h >= 0,
        p[i] is Jz,
        p[t] is Jnz,
        flat(p, i + 1, t),
    ensures
        settles(jump_steps(p.skip(i)), h) <==> settles(jump_steps(p.skip(t + 1)), h),
{
    let body = p.subrange(i + 1, t);
    let z = jump_steps(body);
    let rest = jump_steps(p.skip(t + 1));
    assert forall|k: int| 0 <= k < z.len() implies #[trigger] z[k] == 0 by {
        assert(body[k] == p[i + 1 + k]);
    }
    assert(jump_steps(p.skip(i)) =~= seq![1int] + z + seq![-1int] + rest) by {
        let whole = jump_steps(p.skip(i));
        let parts = seq![1int] + z + seq![-1int] + rest;
        assert(whole.len() == parts.len());
        assert forall|k: int| 0 <= k < whole.len() implies whole[k] == parts[k] by {
            assert(p.skip(i)[k] == p[i + k]);
            if 0 < k && k < t - i {
                assert(z[k - 1] == jump_step(body[k - 1]));
            } else if k > t - i {
                assert(rest[k - (t - i) - 1] == jump_step(p.skip(t + 1)[k - (t - i) - 1]));
            }
        }
    }
    lemma_settles_loop(z, rest, h);
}

/// One instruction in front of a program.
proof fn lemma_one_more(op: Op, rest: Seq<Op>, h: int)
    ensures
        settles(jump_steps(seq![op] + rest), h) <==> h + jump_step(op) >= 0 && settles(
            jump_steps(rest),
            h + jump_step(op),
        ),
{
    lemma_steps_concat(seq![op], rest);
    assert(jump_steps(seq![op]) =~= seq![jump_step(op)]);
    lemma_settles_one(jump_step(op), jump_steps(rest), h);
}

/// Taken from any depth, merging leaves the balance of the jumps as it was.
pub proof fn lemma_merged_settles(p: Seq<Op>, i: int, h: int)
    requires
        0 <= i <= p.len(),
        h >= 0,
    ensures
        settles(jump_steps(merged_from(p, i)), h) <==> settles(jump_steps(p.skip(i)), h),
    decreases p.len() - i,
{
    if i >= p.len() {
        assert(p.skip(i) =~= Seq::<Op>::empty());
    } else if p[i] is Add || p[i] is Move {
        let e = run_end(p, i);
        lemma_run_span(p, i);
        let run = chunks(p[i] is Add, run_sum(p, i, e));
        lemma_chunks_flat(p[i] is Add, run_sum(p, i, e));
        lemma_steps_concat(run, merged_from(p, e));
        lemma_settles_zeros(jump_steps(run), jump_steps(merged_from(p, e)), h);
        lemma_merged_settles(p, e, h);
        assert(flat(p, i, e)) by {
            assert forall|k: int| i <= k < e implies jump_step(#[trigger] p[k]) == 0 by {
                assert(same_kind(p[i], p[k]));
            }
        }
        lemma_skip_flat(p, i, e, h);
    } else {
        lemma_one_more(p[i], merged_from(p, i + 1), h);
        assert(p.skip(i) =~= seq![p[i]] + p.skip(i + 1));
        lemma_one_more(p[i], p.skip(i + 1), h);
        if h + jump_step(p[i]) >= 0 {
            lemma_merged_settles(p, i + 1, h + jump_step(p[i]));
        }
    }
}

/// Merging keeps the jumps balanced, and keeps them unbalanced.
pub proof fn lemma_merged_balanced(p: Seq<Op>)
    ensures
        balanced(jump_steps(merged(p))) <==> balanced(jump_steps(p)),
{
    lemma_merged_settles(p, 0, 0);
    assert(p.skip(0) =~= p);
    lemma_balanced_settles(jump_steps(merged(p)));
    lemma_balanced_settles(jump_steps(p));
}

/// Taken from any depth, loop recognition leaves the balance of the jumps as
/// it was.
pub proof fn lemma_analyzed_settles(p: Seq<Op>, i: int, h: int)
    requires
        0 <= i <= p.len(),
        h >= 0,
    ensures
        settles(jump_steps(analyzed_from(p, i)), h) <==> settles(jump_steps(p.skip(i)), h),
    decreases p.len() - i,
{
    if i >= p.len() {
        assert(p.skip(i) =~= Seq::<Op>::empty());
    } else if let Some(pair) = addto_at(p, i) {
        let (o, s) = pair;
        lemma_one_more(Op::AddTo(o, s), analyzed_from(p, i + 6), h);
        lemma_analyzed_settles(p, i + 6, h);
        lemma_skip_loop(p, i, i + 5, h);
    } else if let Some(dir) = scan_at(p, i) {
        lemma_one_more(Op::Scan(dir), analyzed_from(p, i + 3), h);
        lemma_analyzed_settles(p, i + 3, h);
        lemma_skip_loop(p, i, i + 2, h);
    } else if clear_at(p, i) {
        lemma_one_more(Op::SetZero, analyzed_from(p, i + 3), h);
        lemma_analyzed_settles(p, i + 3, h);
        lemma_skip_loop(p, i, i + 2, h);
    } else if is_linear_loop(p, i) {
        let t = p[i]->Jz_0 as int;
        let body = loop_body(p, i);
        lemma_one_more(Op::AddMul(crate::opt::edits_of(body)), analyzed_from(p, t + 1), h);
        lemma_analyzed_settles(p, t + 1, h);
        assert(flat(p, i + 1, t)) by {
            assert forall|k: int| i + 1 <= k < t implies jump_step(#[trigger] p[k]) == 0 by {
                assert(body[k - i - 1] == p[k]);
                assert(body[k - i - 1] is Add || body[k - i - 1] is Move);
            }
        }
        lemma_skip_loop(p, i, t, h);
    } else {
        lemma_one_more(p[i], analyzed_from(p, i + 1), h);
        assert(p.skip(i) =~= seq![p[i]] + p.skip(i + 1));
        lemma_one_more(p[i], p.skip(i + 1), h);
        if h + jump_step(p[i]) >= 0 {
            lemma_analyzed_settles(p, i + 1, h + jump_step(p[i]));
        }
    }
}

/// Loop recognition keeps the jumps balanced, and keeps them unbalanced.
pub proof fn lemma_analyzed_balanced(p: Seq<Op>)
    ensures
        balanced(jump_steps(analyzed(p))) <==> balanced(jump_steps(p)),
{
    lemma_analyzed_settles(p, 0, 0);
    assert(p.skip(0) =~= p);
    lemma_balanced_settles(jump_steps(analyzed(p)));
    lemma_balanced_settles(jump_steps(p));
}

/// Whether no two neighbours are both `Add`s or both `Move`s.
pub open spec fn no_adjacent_linear(p: Seq<Op>) -> bool {
    forall|k: int| 0 <= k < p.len() - 1 ==> !same_kind(#[trigger] p[k], p[k + 1])
}

/// The kind of the first instruction, where that is an `Add` (true) or a
/// `Move` (false).
pub open spec fn head_kind(p: Seq<Op>) -> Option<bool> {
    if p.len() > 0 && p[0] is Add {
        Some(true)
    } else if p.len() > 0 && p[0] is Move {
        Some(false)
    } else {
        None
    }
}

/// The kind of the first run from `i` on that merging keeps, where only runs
/// that merging drops stand between `i` and that run.
pub open spec fn first_kept(p: Seq<Op>, i: int) -> Option<bool>
    decreases p.len() - i,
{
    if i < 0 || i >= p.len() {
        None
    } else if p[i] is Add || p[i] is Move {
        let e = run_end(p, i);
        if i < e <= p.len() {
            if run_sum(p, i, e) != 0 {
                Some(p[i] is Add)
            } else {
                first_kept(p, e)
            }
        } else {
            None
        }
    } else {
        None
    }
}

/// Whether merging `p[i..]` leaves no two neighbours of one kind: the sum of
/// every run fits 32 bits, so that the run merges into one instruction at
/// most, and no run that is kept is followed, across runs that are dropped, by
/// a kept run of its own kind.
pub open spec fn tidy_from(p: Seq<Op>, i: int) -> bool
    decreases p.len() - i,
{
    if i < 0 || i >= p.len() {
        true
    } else if p[i] is Add || p[i] is Move {
        let e = run_end(p, i);
        let sum = run_sum(p, i, e);
        if i < e <= p.len() {
            &&& i32::MIN <= sum <= i32::MAX
            &&& sum != 0 ==> first_kept(p, e) != Some(p[i] is Add)
            &&& tidy_from(p, e)
        } else {
            true
        }
    } else {
        tidy_from(p, i + 1)
    }
}

/// What a sum that is not zero merges into starts with an instruction of the
/// run's kind.
proof fn lemma_chunks_head(adds: bool, total: int)
    requires
        total != 0,
    ensures
        chunks(adds, total).len() > 0,
        head_kind(chunks(adds, total)) == Some(adds),
        i32::MIN <= total <= i32::MAX ==> chunks(adds, total) == seq![linear(adds, total as i32)],
        !(i32::MIN <= total <= i32::MAX) ==> chunks(adds, total).len() >= 2 && same_kind(
            chunks(adds, total)[0],
            chunks(adds, total)[1],
        ),
    decreases
        if total < 0 {
            -total
        } else {
            total
        },
{
    if total > i32::MAX {
        lemma_chunks_head(adds, total - i32::MAX);
        let rest = chunks(adds, total - i32::MAX);
        assert(chunks(adds, total)[1] == rest[0]);
    } else if total < i32::MIN {
        lemma_chunks_head(adds, total - i32::MIN);
        let rest = chunks(adds, total - i32::MIN);
        assert(chunks(adds, total)[1] == rest[0]);
    }
}

/// Two programs joined have no neighbours of one kind exactly if neither has
/// and the seam has none.
proof fn lemma_no_adjacent_concat(a: Seq<Op>, b: Seq<Op>)
    ensures
        no_adjacent_linear(a + b) <==> no_adjacent_linear(a) && no_adjacent_linear(b) && (a.len()
            > 0 && b.len() > 0 ==> !same_kind(a.last(), b[0])),
{
    let c = a + b;
    if no_adjacent_linear(c) {
        assert forall|k: int| 0 <= k < a.len() - 1 implies !same_kind(#[trigger] a[k], a[k + 1]) by {
            assert(c[k] == a[k] && c[k + 1] == a[k + 1]);
        }
        assert forall|k: int| 0 <= k < b.len() - 1 implies !same_kind(#[trigger] b[k], b[k + 1]) by {
            assert(c[a.len() + k] == b[k] && c[a.len() + k + 1] == b[k + 1]);
        }
        if a.len() > 0 && b.len() > 0 {
            assert(c[a.len() - 1] == a.last() && c[a.len() - 1 + 1] == b[0]);
        }
    }
    if no_adjacent_linear(a) && no_adjacent_linear(b) && (a.len() > 0 && b.len() > 0 ==> !same_kind(
        a.last(),
        b[0],
    )) {
        assert forall|k: int| 0 <= k < c.len() - 1 implies !same_kind(#[trigger] c[k], c[k + 1]) by {
            if k + 1 < a.len() {
                assert(c[k] == a[k] && c[k + 1] == a[k + 1]);
            } else if k >= a.len() {
                assert(c[k] == b[k - a.len()] && c[k + 1] == b[k - a.len() + 1]);
            } else {
                assert(c[k] == a.last() && c[k + 1] == b[0]);
            }
        }
    }
}

/// What merging makes of `p[i..]` starts with the first run that is kept.
proof fn lemma_merged_head(p: Seq<Op>, i: int)
    requires
        0 <= i <= p.len(),
    ensures
        head_kind(merged_from(p, i)) == first_kept(p, i),
    decreases p.len() - i,
{
    if i < p.len() && (p[i] is Add || p[i] is Move) {
        let e = run_end(p, i);
        lemma_run_span(p, i);
        let sum = run_sum(p, i, e);
        if sum != 0 {
            lemma_chunks_head(p[i] is Add, sum);
            assert(merged_from(p, i)[0] == chunks(p[i] is Add, sum)[0]);
        } else {
            lemma_merged_head(p, e);
            assert(merged_from(p, i) =~= merged_from(p, e));
        }
    }
}

/// Merging `p[i..]` leaves no neighbours of one kind exactly where `p[i..]`
/// is tidy.
pub proof fn lemma_merged_tidy_from(p: Seq<Op>, i: int)
    requires
        0 <= i <= p.len(),
    ensures
        no_adjacent_linear(merged_from(p, i)) <==> tidy_from(p, i),
    decreases p.len() - i,
{
    if i >= p.len() {
    } else if p[i] is Add || p[i] is Move {
        let e = run_end(p, i);
        lemma_run_span(p, i);
        let sum = run_sum(p, i, e);
        let run = chunks(p[i] is Add, sum);
        let rest = merged_from(p, e);
        lemma_merged_tidy_from(p, e);
        lemma_merged_head(p, e);
        lemma_no_adjacent_concat(run, rest);
        if sum != 0 {
            lemma_chunks_head(p[i] is Add, sum);
            if !(i32::MIN <= sum <= i32::MAX) {
                assert(!no_adjacent_linear(run));
            }
        }
    } else {
        let rest = merged_from(p, i + 1);
        lemma_merged_tidy_from(p, i + 1);
        lemma_no_adjacent_concat(seq![p[i]], rest);
    }
}

/// After merging, no two neighbours are both `Add`s or both `Move`s, exactly
/// where the program is tidy. It is not where the sum of a run does not fit
/// 32 bits, as for `Add(i32::MAX), Add(1)`, or where a run that sums to zero
/// parts two runs that are kept, as for `Add(1), Move(1), Move(-1), Add(1)`.
pub proof fn lemma_merged_tidy(p: Seq<Op>)
    ensures
        no_adjacent_linear(merged(p)) <==> tidy_from(p, 0),
{
    lemma_merged_tidy_from(p, 0);
}

/// After merging, no `Add` and no `Move` has the delta zero.
pub proof fn lemma_merged_nonzero(p: Seq<Op>, i: int)
    requires
        0 <= i <= p.len(),
    ensures
        forall|k: int|
            0 <= k < merged_from(p, i).len() && (merged_from(p, i)[k] is Add || merged_from(
                p,
                i,
            )[k] is Move) ==> delta(#[trigger] merged_from(p, i)[k]) != 0,
    decreases p.len() - i,
{
    let m = merged_from(p, i);
    if i >= p.len() {
    } else if p[i] is Add || p[i] is Move {
        let e = run_end(p, i);
        lemma_run_span(p, i);
        let run = chunks(p[i] is Add, run_sum(p, i, e));
        lemma_chunks_nonzero(p[i] is Add, run_sum(p, i, e));
        lemma_merged_nonzero(p, e);
        assert forall|k: int| 0 <= k < m.len() && (m[k] is Add || m[k] is Move) implies delta(
            #[trigger] m[k],
        ) != 0 by {
            if k < run.len() {
                assert(m[k] == run[k]);
            } else {
                assert(m[k] == merged_from(p, e)[k - run.len()]);
            }
        }
    } else {
        lemma_merged_nonzero(p, i + 1);
        assert forall|k: int| 0 <= k < m.len() && (m[k] is Add || m[k] is Move) implies delta(
            #[trigger] m[k],
        ) != 0 by {
            if k > 0 {
                assert(m[k] == merged_from(p, i + 1)[k - 1]);
            }
        }
    }
}

/// What a run merges into has no delta of zero.
proof fn lemma_chunks_nonzero(adds: bool, total: int)
    ensures
        forall|k: int|
            0 <= k < chunks(adds, total).len() ==> delta(#[trigger] chunks(adds, total)[k]) != 0,
    decreases
        if total < 0 {
            -total
        } else {
            total
        },
{
    let c = chunks(adds, total);
    if total > i32::MAX {
        let rest = chunks(adds, total - i32::MAX);
        lemma_chunks_nonzero(adds, total - i32::MAX);
        assert forall|k: int| 0 <= k < c.len() implies delta(#[trigger] c[k]) != 0 by {
            if k > 0 {
                assert(c[k] == rest[k - 1]);
            }
        }
    } else if total < i32::MIN {
        let rest = chunks(adds, total - i32::MIN);
        lemma_chunks_nonzero(adds, total - i32::MIN);
        assert forall|k: int| 0 <= k < c.len() implies delta(#[trigger] c[k]) != 0 by {
            if k > 0 {
                assert(c[k] == rest[k - 1]);
            }
        }
    }
}

} // verus!
