//! Why merging keeps what a program does: where the merged program stands
//! for the given one, and how their runs go together.

use crate::agree::{
    cell_at, follows, lean, lemma_descends_trans, lemma_shift_into, lemma_shift_stretched,
    lemma_update_lean, stretched,
};
use crate::balance::{closer, lemma_closer_one, lemma_closer_zeros, lemma_pairs_closer, unit_steps};
use crate::ir::{jump_step, jump_steps, lemma_jumps_mutual, well_linked, Op};
use crate::machine::{dispatch, run_n, shift, step, wrap, Limits, Machine, State, Status};
use crate::runs::{
    lemma_first_step, lemma_run_one, lemma_run_split, lemma_run_stopped, lemma_step_add,
    lemma_step_allowed, lemma_step_follows, lemma_step_jnz, lemma_step_jz, lemma_step_move,
    lemma_step_running, lemma_wrap_twice, may_step,
};
use crate::nesting::{balanced, lemma_pairs_unique_close, lemma_pairs_unique_open, pairs};
use crate::opt::{
    chunks, delta, lemma_linked_well, linked, merged, merged_from, run_end, run_sum, same_kind,
};
use crate::passes::{
    flat, lemma_chunks_flat, lemma_merged_balanced, lemma_run_span, lemma_steps_concat,
};
use vstd::prelude::*;

verus! {

/// Whether `i` is a place where merging starts afresh: the start or the end
/// of the program, or between two instructions that are not of one kind.
pub open spec fn is_anchor(p: Seq<Op>, i: int) -> bool {
    0 <= i <= p.len() && (i == 0 || i == p.len() || !same_kind(p[i - 1], p[i]))
}

/// The anchor that follows the anchor `a`: the end of the run that starts at
/// `a`, or `a + 1` where no run starts.
pub open spec fn next_anchor(p: Seq<Op>, a: int) -> int {
    if p[a] is Add || p[a] is Move {
        run_end(p, a)
    } else {
        a + 1
    }
}

/// Where the instructions for `p[i..]` start in the merged program.
pub open spec fn placed(p: Seq<Op>, i: int) -> int {
    merged(p).len() - merged_from(p, i).len()
}

/// The anchor that follows an anchor is an anchor, and no anchor lies
/// between the two.
pub proof fn lemma_next_anchor(p: Seq<Op>, a: int)
    requires
        is_anchor(p, a),
        a < p.len(),
    ensures
        a < next_anchor(p, a) <= p.len(),
        is_anchor(p, next_anchor(p, a)),
        forall|i: int| a < i < next_anchor(p, a) ==> !is_anchor(p, i),
{
    if p[a] is Add || p[a] is Move {
        lemma_run_span(p, a);
        lemma_run_stop(p, a);
        let e = run_end(p, a);
        assert forall|i: int| a < i < e implies !is_anchor(p, i) by {
            assert(same_kind(p[a], p[i - 1]));
            assert(same_kind(p[a], p[i]));
        }
        if e < p.len() {
            assert(same_kind(p[a], p[e - 1]));
        }
    }
}

/// A run stops in front of an instruction of another kind.
pub proof fn lemma_run_stop(p: Seq<Op>, i: int)
    requires
        0 <= i < p.len(),
        p[i] is Add || p[i] is Move,
    ensures
        run_end(p, i) < p.len() ==> !same_kind(p[i], p[run_end(p, i)]),
    decreases p.len() - i,
{
    if i + 1 < p.len() && same_kind(p[i], p[i + 1]) {
        lemma_run_stop(p, i + 1);
    }
}

/// What merging makes of `p[a..]` ends with what it makes of `p[i..]`, for
/// anchors `a` and `i`.
pub proof fn lemma_suffix(p: Seq<Op>, a: int, i: int)
    requires
        is_anchor(p, a),
        is_anchor(p, i),
        a <= i,
    ensures
        merged_from(p, a).len() >= merged_from(p, i).len(),
        merged_from(p, a).skip(merged_from(p, a).len() - merged_from(p, i).len()) == merged_from(
            p,
            i,
        ),
    decreases i - a,
{
    let whole = merged_from(p, a);
    if a == i {
        assert(whole.skip(0) =~= whole);
    } else {
        lemma_next_anchor(p, a);
        let n = next_anchor(p, a);
        lemma_suffix(p, n, i);
        let rest = merged_from(p, n);
        let head = whole.len() - rest.len();
        assert(whole.skip(head) =~= rest);
        assert(whole.skip(whole.len() - merged_from(p, i).len()) =~= rest.skip(
            rest.len() - merged_from(p, i).len(),
        ));
    }
}

/// The merged program from the place of an anchor on.
pub proof fn lemma_placed(p: Seq<Op>, i: int)
    requires
        is_anchor(p, i),
    ensures
        0 <= placed(p, i) <= merged(p).len(),
        merged(p).skip(placed(p, i)) == merged_from(p, i),
{
    lemma_suffix(p, 0, i);
}

/// The steps of a program are opens, closes and neither.
pub proof fn lemma_unit_steps(p: Seq<Op>)
    ensures
        unit_steps(jump_steps(p)),
{
}

/// The steps of a program without its first instructions.
pub proof fn lemma_steps_skip(p: Seq<Op>, i: int)
    requires
        0 <= i <= p.len(),
    ensures
        jump_steps(p).skip(i) == jump_steps(p.skip(i)),
{
    assert(jump_steps(p).skip(i) =~= jump_steps(p.skip(i)));
}

/// What [`closer`] finds in the merged program is the place of what it finds
/// in the given one.
pub proof fn lemma_merged_closer(p: Seq<Op>, i: int, h: int)
    requires
        is_anchor(p, i),
        h >= 1,
    ensures
        is_anchor(p, i + closer(jump_steps(p.skip(i)), h)),
        closer(jump_steps(merged_from(p, i)), h) == merged_from(p, i).len() - merged_from(
            p,
            i + closer(jump_steps(p.skip(i)), h),
        ).len(),
    decreases p.len() - i,
{
    if i >= p.len() {
        assert(p.skip(i) =~= Seq::<Op>::empty());
    } else if p[i] is Add || p[i] is Move {
        let e = run_end(p, i);
        lemma_next_anchor(p, i);
        lemma_run_span(p, i);
        let run = chunks(p[i] is Add, run_sum(p, i, e));
        lemma_chunks_flat(p[i] is Add, run_sum(p, i, e));
        lemma_steps_concat(run, merged_from(p, e));
        lemma_closer_zeros(jump_steps(run), jump_steps(merged_from(p, e)), h);
        lemma_merged_closer(p, e, h);
        let z = jump_steps(p.subrange(i, e));
        assert(p.skip(i) =~= p.subrange(i, e) + p.skip(e));
        lemma_steps_concat(p.subrange(i, e), p.skip(e));
        assert forall|k: int| 0 <= k < z.len() implies #[trigger] z[k] == 0 by {
            assert(p.subrange(i, e)[k] == p[i + k]);
            assert(same_kind(p[i], p[i + k]));
        }
        lemma_closer_zeros(z, jump_steps(p.skip(e)), h);
    } else {
        let st = jump_step(p[i]);
        lemma_next_anchor(p, i);
        lemma_steps_concat(seq![p[i]], merged_from(p, i + 1));
        assert(jump_steps(seq![p[i]]) =~= seq![st]);
        lemma_closer_one(st, jump_steps(merged_from(p, i + 1)), h);
        assert(p.skip(i) =~= seq![p[i]] + p.skip(i + 1));
        lemma_steps_concat(seq![p[i]], p.skip(i + 1));
        lemma_closer_one(st, jump_steps(p.skip(i + 1)), h);
        if h + st != 0 {
            lemma_merged_closer(p, i + 1, h + st);
        }
    }
}

/// The merged and linked program.
pub open spec fn merged_linked(p: Seq<Op>) -> Seq<Op> {
    linked(merged(p))
}

/// A jump keeps its partner: where the `Jz` at `a` and the `Jnz` at `t` of
/// the given program name each other, so do the jumps at their places in
/// the merged and linked program.
pub proof fn lemma_merged_partner(p: Seq<Op>, a: int, t: int)
    requires
        well_linked(p),
        merged(p).len() <= usize::MAX,
        0 <= a < p.len(),
        p[a] == Op::Jz(t as usize),
        0 <= t <= usize::MAX,
    ensures
        a < t < p.len(),
        is_anchor(p, a) && is_anchor(p, a + 1) && is_anchor(p, t) && is_anchor(p, t + 1),
        placed(p, a + 1) == placed(p, a) + 1,
        placed(p, t + 1) == placed(p, t) + 1,
        0 <= placed(p, a) < placed(p, t) < merged(p).len(),
        merged_linked(p)[placed(p, a)] == Op::Jz(placed(p, t) as usize),
        merged_linked(p)[placed(p, t)] == Op::Jnz(placed(p, a) as usize),
{
    let d = jump_steps(p);
    let m = merged(p);
    let q = merged_linked(p);
    let dm = jump_steps(m);
    assert(pairs(d, a, t));
    lemma_merged_balanced(p);
    lemma_linked_well(m);
    lemma_unit_steps(p);
    lemma_unit_steps(m);
    lemma_pairs_closer(d, a, t);
    lemma_steps_skip(p, a + 1);
    lemma_merged_closer(p, a + 1, 1);
    lemma_placed(p, a);
    lemma_placed(p, a + 1);
    lemma_placed(p, t);
    lemma_placed(p, t + 1);
    assert(merged_from(p, a)[0] == p[a]);
    assert(m.skip(placed(p, a))[0] == m[placed(p, a)]);
    assert(merged_from(p, t)[0] == p[t]);
    assert(m.skip(placed(p, t))[0] == m[placed(p, t)]);
    let pa = placed(p, a);
    let pt = placed(p, t);
    lemma_steps_skip(m, pa + 1);
    lemma_pairs_closer(dm, pa, pt);
    assert(pairs(dm, pa, pt));
    assert(jump_step(q[pa]) == jump_step(m[pa]));
    assert(jump_step(q[pt]) == jump_step(m[pt]));
    match q[pa] {
        Op::Jz(x) => {
            lemma_pairs_unique_close(dm, pa, pt, x as int);
        },
        _ => {},
    }
    match q[pt] {
        Op::Jnz(x) => {
            lemma_pairs_unique_open(dm, pa, x as int, pt);
        },
        _ => {},
    }
}

/// A run of `Add`s adds their sum to the cell under the pointer.
pub proof fn lemma_adds_run(p: Seq<Op>, s: State, lim: Limits, m: nat)
    requires
        !lim.tracing,
        s.m.wf(),
        0 <= s.ip,
        s.ip + m <= p.len(),
        forall|k: int| s.ip <= k < s.ip + m ==> #[trigger] p[k] is Add,
        run_n(p, s, lim, m).1 is Running,
    ensures
        run_n(p, s, lim, m).0.m.pointer == s.m.pointer,
        run_n(p, s, lim, m).0.m.cells == s.m.cells.update(
            s.m.pointer,
            wrap(s.m.cell() + run_sum(p, s.ip, s.ip + m)),
        ),
        run_n(p, s, lim, m).0.ip == s.ip + m,
        run_n(p, s, lim, m).0.steps == s.steps + m,
        run_n(p, s, lim, m).0.input == s.input,
        run_n(p, s, lim, m).0.output == s.output,
        run_n(p, s, lim, m).0.trace == s.trace,
        m > 0 ==> may_step(lim, s.steps + m - 1),
    decreases m,
{
    if m == 0 {
        assert(s.m.cells.update(s.m.pointer, wrap(s.m.cell() + 0)) =~= s.m.cells);
    } else {
        let before = run_n(p, s, lim, (m - 1) as nat);
        if !(before.1 is Running) {
            lemma_run_stopped(p, s, lim, (m - 1) as nat, 1);
        }
        lemma_adds_run(p, s, lim, (m - 1) as nat);
        let t = before.0;
        lemma_step_running(p, t, lim);
        assert(p[t.ip] is Add);
        let d = p[t.ip]->Add_0;
        lemma_step_add(p, t, lim, d);
        let sum = run_sum(p, s.ip, s.ip + m - 1);
        assert(run_sum(p, s.ip, s.ip + m) == sum + d);
        lemma_wrap_twice(s.m.cell() as int, sum, d as int);
        assert(s.m.cells.update(s.m.pointer, wrap(s.m.cell() + sum)).update(
            s.m.pointer,
            wrap(s.m.cell() + sum + d),
        ) =~= s.m.cells.update(s.m.pointer, wrap(s.m.cell() + sum + d)));
    }
}

/// A run of `Move`s moves the pointer by their sum, and changes no cell.
pub proof fn lemma_moves_run(p: Seq<Op>, s: State, lim: Limits, m: nat)
    requires
        !lim.tracing,
        s.m.wf(),
        s.m.cells.len() <= lim.cap <= usize::MAX,
        0 <= s.ip,
        s.ip + m <= p.len(),
        forall|k: int| s.ip <= k < s.ip + m ==> #[trigger] p[k] is Move,
        run_n(p, s, lim, m).1 is Running,
    ensures
        stretched(s.m, run_n(p, s, lim, m).0.m),
        run_n(p, s, lim, m).0.m.pointer == s.m.pointer + run_sum(p, s.ip, s.ip + m),
        run_n(p, s, lim, m).0.m.cells.len() <= lim.cap,
        run_n(p, s, lim, m).0.ip == s.ip + m,
        run_n(p, s, lim, m).0.steps == s.steps + m,
        run_n(p, s, lim, m).0.input == s.input,
        run_n(p, s, lim, m).0.output == s.output,
        run_n(p, s, lim, m).0.trace == s.trace,
        m > 0 ==> may_step(lim, s.steps + m - 1),
    decreases m,
{
    if m > 0 {
        let before = run_n(p, s, lim, (m - 1) as nat);
        if !(before.1 is Running) {
            lemma_run_stopped(p, s, lim, (m - 1) as nat, 1);
        }
        lemma_moves_run(p, s, lim, (m - 1) as nat);
        let t = before.0;
        lemma_step_running(p, t, lim);
        assert(p[t.ip] is Move);
        let d = p[t.ip]->Move_0;
        lemma_move_ran(p, t, lim, d);
        lemma_step_move(p, t, lim, d);
        lemma_shift_stretched(t.m, d as int, lim.cap);
        let r = run_n(p, s, lim, m).0;
        lemma_descends_trans(
            s.m.cells.len() as int,
            t.m.cells.len() as int,
            r.m.cells.len() as int,
        );
        assert forall|i: int| cell_at(s.m, i) == #[trigger] cell_at(r.m, i) by {
            assert(cell_at(s.m, i) == cell_at(t.m, i));
            assert(cell_at(t.m, i) == cell_at(r.m, i));
        }
    } else {
        assert forall|i: int| cell_at(s.m, i) == #[trigger] cell_at(s.m, i) by {}
    }
}

/// A `Move` that left the run running moved the pointer.
pub proof fn lemma_move_ran(p: Seq<Op>, s: State, lim: Limits, d: i32)
    requires
        !lim.tracing,
        0 <= s.ip < p.len(),
        p[s.ip] == Op::Move(d),
        step(p, s, lim).1 is Running,
    ensures
        shift(s.m, d as int, lim.cap) is Ok,
        may_step(lim, s.steps),
{
    reveal(dispatch);
}

/// The sum of a run lies within as many times the bounds of one delta as the
/// run is long.
pub proof fn lemma_run_sum_bound(p: Seq<Op>, i: int, e: int)
    requires
        0 <= i <= e <= p.len(),
    ensures
        (e - i) * i32::MIN <= run_sum(p, i, e) <= (e - i) * i32::MAX,
    decreases e - i,
{
    if i < e {
        lemma_run_sum_bound(p, i, e - 1);
        assert(i32::MIN <= delta(p[e - 1]) <= i32::MAX);
    }
}

/// A sum merges into no more instructions than it has summands.
pub proof fn lemma_chunks_len(adds: bool, total: int, k: int)
    requires
        k >= 1,
        k * i32::MIN <= total <= k * i32::MAX,
    ensures
        chunks(adds, total).len() <= k,
    decreases
        if total < 0 {
            -total
        } else {
            total
        },
{
    if total > i32::MAX {
        lemma_chunks_len(adds, total - i32::MAX, k - 1);
    } else if total < i32::MIN {
        lemma_chunks_len(adds, total - i32::MIN, k - 1);
    }
}

/// The `Add`s that a sum merged into add the sum to the cell under the
/// pointer.
pub proof fn lemma_chunks_add_run(q: Seq<Op>, s: State, lim: Limits, total: int)
    requires
        !lim.tracing,
        s.m.wf(),
        0 <= s.ip,
        0 <= s.steps,
        s.ip + chunks(true, total).len() <= q.len(),
        q.subrange(s.ip, s.ip + chunks(true, total).len()) == chunks(true, total),
        chunks(true, total).len() > 0 ==> may_step(lim, s.steps + chunks(true, total).len() - 1),
    ensures
        run_n(q, s, lim, chunks(true, total).len()).1 is Running,
        run_n(q, s, lim, chunks(true, total).len()).0.m.pointer == s.m.pointer,
        run_n(q, s, lim, chunks(true, total).len()).0.m.cells == s.m.cells.update(
            s.m.pointer,
            wrap(s.m.cell() + total),
        ),
        run_n(q, s, lim, chunks(true, total).len()).0.ip == s.ip + chunks(true, total).len(),
        run_n(q, s, lim, chunks(true, total).len()).0.steps == s.steps + chunks(
            true,
            total,
        ).len(),
        run_n(q, s, lim, chunks(true, total).len()).0.input == s.input,
        run_n(q, s, lim, chunks(true, total).len()).0.output == s.output,
        run_n(q, s, lim, chunks(true, total).len()).0.trace == s.trace,
    decreases
        if total < 0 {
            -total
        } else {
            total
        },
{
    let c = chunks(true, total);
    if total == 0 {
        assert(s.m.cells.update(s.m.pointer, wrap(s.m.cell() + 0)) =~= s.m.cells);
    } else {
        let first: i32 = if total > i32::MAX {
            i32::MAX
        } else if total < i32::MIN {
            i32::MIN
        } else {
            total as i32
        };
        let rest = chunks(true, total - first);
        assert(c =~= seq![Op::Add(first)] + rest);
        assert(q[s.ip] == q.subrange(s.ip, s.ip + c.len())[0]);
        lemma_run_one(q, s, lim);
        lemma_step_add(q, s, lim, first);
        let t = step(q, s, lim).0;
        assert(q.subrange(t.ip, t.ip + rest.len()) =~= rest) by {
            assert forall|k: int| 0 <= k < rest.len() implies q.subrange(
                t.ip,
                t.ip + rest.len(),
            )[k] == rest[k] by {
                assert(q.subrange(s.ip, s.ip + c.len())[k + 1] == c[k + 1]);
            }
        }
        lemma_chunks_add_run(q, t, lim, total - first);
        lemma_run_split(q, s, lim, 1, rest.len());
        lemma_wrap_twice(s.m.cell() as int, first as int, total - first);
        assert(s.m.cells.update(s.m.pointer, wrap(s.m.cell() + first)).update(
            s.m.pointer,
            wrap(s.m.cell() + total),
        ) =~= s.m.cells.update(s.m.pointer, wrap(s.m.cell() + total)));
    }
}

/// The `Move`s that a sum merged into move the pointer by the sum, where the
/// fuller tape has a cell there.
pub proof fn lemma_chunks_move_run(q: Seq<Op>, s: State, lim: Limits, total: int, n: Machine)
    requires
        !lim.tracing,
        stretched(s.m, n),
        n.cells.len() <= lim.cap <= usize::MAX,
        n.pointer == s.m.pointer + total,
        0 <= s.ip,
        0 <= s.steps,
        s.ip + chunks(false, total).len() <= q.len(),
        q.subrange(s.ip, s.ip + chunks(false, total).len()) == chunks(false, total),
        chunks(false, total).len() > 0 ==> may_step(lim, s.steps + chunks(false, total).len() - 1),
    ensures
        run_n(q, s, lim, chunks(false, total).len()).1 is Running,
        lean(run_n(q, s, lim, chunks(false, total).len()).0.m, n),
        run_n(q, s, lim, chunks(false, total).len()).0.ip == s.ip + chunks(false, total).len(),
        run_n(q, s, lim, chunks(false, total).len()).0.steps == s.steps + chunks(
            false,
            total,
        ).len(),
        run_n(q, s, lim, chunks(false, total).len()).0.input == s.input,
        run_n(q, s, lim, chunks(false, total).len()).0.output == s.output,
        run_n(q, s, lim, chunks(false, total).len()).0.trace == s.trace,
    decreases
        if total < 0 {
            -total
        } else {
            total
        },
{
    let c = chunks(false, total);
    if total == 0 {
    } else {
        let first: i32 = if total > i32::MAX {
            i32::MAX
        } else if total < i32::MIN {
            i32::MIN
        } else {
            total as i32
        };
        let rest = chunks(false, total - first);
        assert(c =~= seq![Op::Move(first)] + rest);
        assert(q[s.ip] == q.subrange(s.ip, s.ip + c.len())[0]);
        lemma_run_one(q, s, lim);
        lemma_shift_into(s.m, n, first as int, lim.cap);
        lemma_step_move(q, s, lim, first);
        let t = step(q, s, lim).0;
        assert(q.subrange(t.ip, t.ip + rest.len()) =~= rest) by {
            assert forall|k: int| 0 <= k < rest.len() implies q.subrange(
                t.ip,
                t.ip + rest.len(),
            )[k] == rest[k] by {
                assert(q.subrange(s.ip, s.ip + c.len())[k + 1] == c[k + 1]);
            }
        }
        lemma_chunks_move_run(q, t, lim, total - first, n);
        lemma_run_split(q, s, lim, 1, rest.len());
    }
}

/// An instruction that is neither an `Add` nor a `Move` stands at its place
/// in the merged program.
pub proof fn lemma_placed_single(p: Seq<Op>, a: int)
    requires
        is_anchor(p, a),
        a < p.len(),
        !(p[a] is Add || p[a] is Move),
    ensures
        0 <= placed(p, a) < merged(p).len(),
        merged(p)[placed(p, a)] == p[a],
        placed(p, a + 1) == placed(p, a) + 1,
        is_anchor(p, a + 1),
{
    lemma_placed(p, a);
    lemma_next_anchor(p, a);
    lemma_placed(p, a + 1);
    assert(merged_from(p, a)[0] == p[a]);
    assert(merged(p).skip(placed(p, a))[0] == merged(p)[placed(p, a)]);
}

/// At the place of a run stand the instructions that it merged into.
pub proof fn lemma_placed_run(p: Seq<Op>, a: int)
    requires
        is_anchor(p, a),
        a < p.len(),
        p[a] is Add || p[a] is Move,
    ensures
        0 <= placed(p, a),
        is_anchor(p, run_end(p, a)),
        a < run_end(p, a) <= p.len(),
        placed(p, run_end(p, a)) == placed(p, a) + chunks(
            p[a] is Add,
            run_sum(p, a, run_end(p, a)),
        ).len(),
        placed(p, run_end(p, a)) <= merged(p).len(),
        merged(p).subrange(placed(p, a), placed(p, run_end(p, a))) == chunks(
            p[a] is Add,
            run_sum(p, a, run_end(p, a)),
        ),
{
    lemma_placed(p, a);
    lemma_next_anchor(p, a);
    let e = run_end(p, a);
    lemma_placed(p, e);
    let run = chunks(p[a] is Add, run_sum(p, a, e));
    let m = merged(p);
    assert(m.subrange(placed(p, a), placed(p, e)) =~= run) by {
        assert forall|k: int| 0 <= k < run.len() implies m.subrange(placed(p, a), placed(p, e))[k]
            == run[k] by {
            assert(m.skip(placed(p, a))[k] == merged_from(p, a)[k]);
        }
    }
}

/// A step over an instruction that is no jump, and that leaves the run
/// running, moves on to the next instruction.
proof fn lemma_step_on(p: Seq<Op>, s: State, lim: Limits)
    requires
        !lim.tracing,
        step(p, s, lim).1 is Running,
        0 <= s.ip < p.len() ==> !(p[s.ip] is Jz) && !(p[s.ip] is Jnz),
    ensures
        step(p, s, lim).0.ip == s.ip + 1,
{
    lemma_step_running(p, s, lim);
    reveal(dispatch);
}

/// A run that comes to its end passes through a stretch without jumps step
/// by step.
pub proof fn lemma_run_through(p: Seq<Op>, s: State, lim: Limits, n: nat, m: nat)
    requires
        !lim.tracing,
        0 <= s.ip,
        s.ip + m <= p.len(),
        flat(p, s.ip, s.ip + m),
        run_n(p, s, lim, n).1 is Done,
    ensures
        run_n(p, s, lim, m).1 is Running,
        run_n(p, s, lim, m).0.ip == s.ip + m,
        m < n,
        run_n(p, run_n(p, s, lim, m).0, lim, (n - m) as nat) == run_n(p, s, lim, n),
    decreases m,
{
    if m > 0 {
        lemma_run_through(p, s, lim, n, (m - 1) as nat);
        let t = run_n(p, s, lim, (m - 1) as nat).0;
        lemma_first_step(p, t, lim, (n - (m - 1)) as nat);
        assert(jump_step(p[t.ip]) == 0);
        lemma_step_on(p, t, lim);
    }
}

/// What stands at the place of a run in the merged and linked program.
proof fn lemma_merge_run_shape(p: Seq<Op>, a: int)
    requires
        well_linked(p),
        merged(p).len() <= usize::MAX,
        is_anchor(p, a),
        a < p.len(),
        p[a] is Add || p[a] is Move,
    ensures
        a < run_end(p, a) <= p.len(),
        is_anchor(p, run_end(p, a)),
        flat(p, a, run_end(p, a)),
        forall|x: int| a <= x < run_end(p, a) ==> same_kind(p[a], #[trigger] p[x]),
        chunks(p[a] is Add, run_sum(p, a, run_end(p, a))).len() <= run_end(p, a) - a,
        0 <= placed(p, a),
        placed(p, run_end(p, a)) == placed(p, a) + chunks(
            p[a] is Add,
            run_sum(p, a, run_end(p, a)),
        ).len(),
        placed(p, run_end(p, a)) <= merged_linked(p).len(),
        merged_linked(p).subrange(placed(p, a), placed(p, run_end(p, a))) == chunks(
            p[a] is Add,
            run_sum(p, a, run_end(p, a)),
        ),
{
    let q = merged_linked(p);
    let m = merged(p);
    lemma_merged_balanced(p);
    lemma_linked_well(m);
    let e = run_end(p, a);
    lemma_run_span(p, a);
    lemma_placed_run(p, a);
    let total = run_sum(p, a, e);
    let run = chunks(p[a] is Add, total);
    assert(flat(p, a, e)) by {
        assert forall|x: int| a <= x < e implies jump_step(#[trigger] p[x]) == 0 by {
            assert(same_kind(p[a], p[x]));
        }
    }
    lemma_run_sum_bound(p, a, e);
    lemma_chunks_len(p[a] is Add, total, e - a);
    lemma_chunks_flat(p[a] is Add, total);
    let pa = placed(p, a);
    assert(q.subrange(pa, pa + run.len()) =~= run) by {
        assert forall|x: int| 0 <= x < run.len() implies q.subrange(pa, pa + run.len())[x]
            == run[x] by {
            assert(m.subrange(placed(p, a), placed(p, e))[x] == run[x]);
            assert(jump_step(q[pa + x]) == jump_step(m[pa + x]));
        }
    }
}

/// The merged program follows the given one through a run of `Add`s.
proof fn lemma_merge_adds(p: Seq<Op>, sp: State, sq: State, lim: Limits, n: nat) -> (r: (nat, nat))
    requires
        well_linked(p),
        p.len() <= usize::MAX,
        merged(p).len() <= usize::MAX,
        !lim.tracing,
        is_anchor(p, sp.ip),
        sp.ip < p.len(),
        p[sp.ip] is Add,
        sq.ip == placed(p, sp.ip),
        follows(sq, sp, lim.cap),
        run_n(p, sp, lim, n).1 is Done,
    ensures
        1 <= r.0 <= n,
        r.1 <= r.0,
        run_n(p, sp, lim, r.0).1 is Running,
        is_anchor(p, run_n(p, sp, lim, r.0).0.ip),
        run_n(merged_linked(p), sq, lim, r.1).1 is Running,
        run_n(merged_linked(p), sq, lim, r.1).0.ip == placed(p, run_n(p, sp, lim, r.0).0.ip),
        follows(run_n(merged_linked(p), sq, lim, r.1).0, run_n(p, sp, lim, r.0).0, lim.cap),
{
    let a = sp.ip;
    let q = merged_linked(p);
    let e = run_end(p, a);
    let k = (e - a) as nat;
    lemma_merge_run_shape(p, a);
    let total = run_sum(p, a, e);
    let run = chunks(true, total);
    lemma_run_through(p, sp, lim, n, k);
    assert forall|x: int| a <= x < a + k implies #[trigger] p[x] is Add by {
        assert(same_kind(p[a], p[x]));
    }
    lemma_adds_run(p, sp, lim, k);
    lemma_chunks_add_run(q, sq, lim, total);
    assert(cell_at(sq.m, sq.m.pointer) == cell_at(sp.m, sp.m.pointer));
    lemma_update_lean(sp.m, sq.m, sp.m.pointer, wrap(sp.m.cell() + total));
    (k, run.len())
}

/// The merged program follows the given one through a run of `Move`s.
proof fn lemma_merge_moves(p: Seq<Op>, sp: State, sq: State, lim: Limits, n: nat) -> (r: (nat, nat))
    requires
        well_linked(p),
        p.len() <= usize::MAX,
        merged(p).len() <= usize::MAX,
        !lim.tracing,
        is_anchor(p, sp.ip),
        sp.ip < p.len(),
        p[sp.ip] is Move,
        sq.ip == placed(p, sp.ip),
        follows(sq, sp, lim.cap),
        run_n(p, sp, lim, n).1 is Done,
    ensures
        1 <= r.0 <= n,
        r.1 <= r.0,
        run_n(p, sp, lim, r.0).1 is Running,
        is_anchor(p, run_n(p, sp, lim, r.0).0.ip),
        run_n(merged_linked(p), sq, lim, r.1).1 is Running,
        run_n(merged_linked(p), sq, lim, r.1).0.ip == placed(p, run_n(p, sp, lim, r.0).0.ip),
        follows(run_n(merged_linked(p), sq, lim, r.1).0, run_n(p, sp, lim, r.0).0, lim.cap),
{
    let a = sp.ip;
    let q = merged_linked(p);
    let e = run_end(p, a);
    let k = (e - a) as nat;
    lemma_merge_run_shape(p, a);
    let total = run_sum(p, a, e);
    let run = chunks(false, total);
    lemma_run_through(p, sp, lim, n, k);
    assert forall|x: int| a <= x < a + k implies #[trigger] p[x] is Move by {
        assert(same_kind(p[a], p[x]));
    }
    lemma_moves_run(p, sp, lim, k);
    let np = run_n(p, sp, lim, k).0.m;
    lemma_descends_trans(sq.m.cells.len() as int, sp.m.cells.len() as int, np.cells.len() as int);
    assert forall|i: int| cell_at(sq.m, i) == #[trigger] cell_at(np, i) by {
        assert(cell_at(sq.m, i) == cell_at(sp.m, i));
        assert(cell_at(sp.m, i) == cell_at(np, i));
    }
    lemma_chunks_move_run(q, sq, lim, total, np);
    (k, run.len())
}

/// The merged program follows the given one over a jump.
proof fn lemma_merge_jump(p: Seq<Op>, sp: State, sq: State, lim: Limits, n: nat)
    requires
        well_linked(p),
        p.len() <= usize::MAX,
        merged(p).len() <= usize::MAX,
        !lim.tracing,
        is_anchor(p, sp.ip),
        sp.ip < p.len(),
        p[sp.ip] is Jz || p[sp.ip] is Jnz,
        sq.ip == placed(p, sp.ip),
        follows(sq, sp, lim.cap),
        run_n(p, sp, lim, n).1 is Done,
    ensures
        step(p, sp, lim).1 is Running,
        is_anchor(p, step(p, sp, lim).0.ip),
        step(merged_linked(p), sq, lim).1 is Running,
        step(merged_linked(p), sq, lim).0.ip == placed(p, step(p, sp, lim).0.ip),
        follows(step(merged_linked(p), sq, lim).0, step(p, sp, lim).0, lim.cap),
{
    let a = sp.ip;
    let q = merged_linked(p);
    lemma_first_step(p, sp, lim, n);
    lemma_step_allowed(p, sp, lim);
    lemma_placed_single(p, a);
    assert(cell_at(sq.m, sq.m.pointer) == cell_at(sp.m, sp.m.pointer));
    match p[a] {
        Op::Jz(t) => {
            assert(pairs(jump_steps(p), a, t as int));
            lemma_merged_partner(p, a, t as int);
            lemma_step_jz(p, sp, lim, t);
            lemma_step_jz(q, sq, lim, placed(p, t as int) as usize);
        },
        Op::Jnz(t) => {
            assert(pairs(jump_steps(p), t as int, a));
            lemma_jumps_mutual(p, t as int, a);
            lemma_merged_partner(p, t as int, a);
            lemma_step_jnz(p, sp, lim, t);
            lemma_step_jnz(q, sq, lim, placed(p, t as int) as usize);
        },
        _ => {},
    }
}

/// The merged program follows the given one over an instruction that is
/// neither merged nor a jump.
proof fn lemma_merge_plain(p: Seq<Op>, sp: State, sq: State, lim: Limits, n: nat)
    requires
        well_linked(p),
        p.len() <= usize::MAX,
        merged(p).len() <= usize::MAX,
        !lim.tracing,
        is_anchor(p, sp.ip),
        sp.ip < p.len(),
        !(p[sp.ip] is Jz || p[sp.ip] is Jnz || p[sp.ip] is Add || p[sp.ip] is Move),
        sq.ip == placed(p, sp.ip),
        follows(sq, sp, lim.cap),
        run_n(p, sp, lim, n).1 is Done,
    ensures
        step(p, sp, lim).1 is Running,
        is_anchor(p, step(p, sp, lim).0.ip),
        step(merged_linked(p), sq, lim).1 is Running,
        step(merged_linked(p), sq, lim).0.ip == placed(p, step(p, sp, lim).0.ip),
        follows(step(merged_linked(p), sq, lim).0, step(p, sp, lim).0, lim.cap),
{
    let a = sp.ip;
    let q = merged_linked(p);
    let m = merged(p);
    lemma_merged_balanced(p);
    lemma_linked_well(m);
    lemma_first_step(p, sp, lim, n);
    lemma_placed_single(p, a);
    assert(jump_step(q[sq.ip]) == jump_step(m[sq.ip]));
    lemma_step_follows(p, q, sp, sq, lim);
}

/// From an anchor, the given program comes to the next anchor that its run
/// passes, and the merged program comes to the place of that anchor, in no
/// more steps and with the same result.
pub proof fn lemma_merge_local(p: Seq<Op>, sp: State, sq: State, lim: Limits, n: nat) -> (r: (
    nat,
    nat,
))
    requires
        well_linked(p),
        p.len() <= usize::MAX,
        merged(p).len() <= usize::MAX,
        !lim.tracing,
        is_anchor(p, sp.ip),
        sp.ip < p.len(),
        sq.ip == placed(p, sp.ip),
        follows(sq, sp, lim.cap),
        run_n(p, sp, lim, n).1 is Done,
    ensures
        1 <= r.0 <= n,
        r.1 <= r.0,
        run_n(p, sp, lim, r.0).1 is Running,
        is_anchor(p, run_n(p, sp, lim, r.0).0.ip),
        run_n(merged_linked(p), sq, lim, r.1).1 is Running,
        run_n(merged_linked(p), sq, lim, r.1).0.ip == placed(p, run_n(p, sp, lim, r.0).0.ip),
        follows(run_n(merged_linked(p), sq, lim, r.1).0, run_n(p, sp, lim, r.0).0, lim.cap),
{
    let a = sp.ip;
    if p[a] is Add {
        lemma_merge_adds(p, sp, sq, lim, n)
    } else if p[a] is Move {
        lemma_merge_moves(p, sp, sq, lim, n)
    } else {
        lemma_first_step(p, sp, lim, n);
        lemma_run_one(merged_linked(p), sq, lim);
        if p[a] is Jz || p[a] is Jnz {
            lemma_merge_jump(p, sp, sq, lim, n);
        } else {
            lemma_merge_plain(p, sp, sq, lim, n);
        }
        (1, 1)
    }
}

/// At the end of the given program the merged program is at its end.
proof fn lemma_merge_end(p: Seq<Op>, sp: State, sq: State, lim: Limits, n: nat)
    requires
        p.len() <= usize::MAX,
        merged(p).len() <= usize::MAX,
        balanced(jump_steps(p)),
        sp.ip == p.len(),
        sq.ip == placed(p, sp.ip),
        run_n(p, sp, lim, n).1 is Done,
    ensures
        n >= 1,
        run_n(p, sp, lim, n).0 == sp,
        run_n(merged_linked(p), sq, lim, 1) == (sq, Status::Done),
{
    let q = merged_linked(p);
    lemma_merged_balanced(p);
    lemma_linked_well(merged(p));
    lemma_run_one(p, sp, lim);
    lemma_run_one(q, sq, lim);
    assert(run_n(p, sp, lim, 0).1 is Running);
    lemma_run_stopped(p, sp, lim, 1, (n - 1) as nat);
    assert(1 + (n - 1) as nat == n);
}

/// The merged and linked program does what the given program does: where
/// the run of the given program from an anchor comes to its end, the run
/// of the merged program from the place of that anchor comes to its end, in
/// no more steps and with the same result.
pub proof fn lemma_merge_sim(p: Seq<Op>, sp: State, sq: State, lim: Limits, n: nat) -> (m: nat)
    requires
        well_linked(p),
        p.len() <= usize::MAX,
        merged(p).len() <= usize::MAX,
        !lim.tracing,
        is_anchor(p, sp.ip),
        sq.ip == placed(p, sp.ip),
        follows(sq, sp, lim.cap),
        run_n(p, sp, lim, n).1 is Done,
    ensures
        m <= n,
        run_n(merged_linked(p), sq, lim, m).1 is Done,
        follows(run_n(merged_linked(p), sq, lim, m).0, run_n(p, sp, lim, n).0, lim.cap),
    decreases n,
{
    let q = merged_linked(p);
    if sp.ip >= p.len() {
        lemma_merge_end(p, sp, sq, lim, n);
        1
    } else {
        let (k, j) = lemma_merge_local(p, sp, sq, lim, n);
        let tp = run_n(p, sp, lim, k).0;
        let tq = run_n(q, sq, lim, j).0;
        lemma_run_split(p, sp, lim, k, (n - k) as nat);
        let rest = lemma_merge_sim(p, tp, tq, lim, (n - k) as nat);
        lemma_run_split(q, sq, lim, j, rest);
        j + rest
    }
}

} // verus!
