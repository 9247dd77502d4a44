//! Why loop recognition keeps what a program does: where the program with
//! its loops recognized stands for the given one.

use crate::balance::{closer, lemma_closer_loop, lemma_closer_one, lemma_pairs_closer};
use crate::agree::{cell_at, follows};
use crate::ir::{jump_step, jump_steps, lemma_jumps_mutual, well_linked, Op};
use crate::loops_sound::{
    lemma_addto_done, lemma_clear_done, lemma_linear_loop_done, lemma_scan_done, lemma_worked_step,
    loop_done,
};
use crate::machine::{run_n, step, Limits, State, Status};
use crate::runs::{
    lemma_first_step, lemma_run_one, lemma_run_split, lemma_run_stopped, lemma_step_allowed,
    lemma_step_follows, lemma_step_jnz, lemma_step_jz,
};
use crate::merge_sound::{lemma_steps_skip, lemma_unit_steps};
use crate::nesting::{balanced, lemma_pairs_unique_close, lemma_pairs_unique_open, pairs};
use crate::opt::{
    addto_at, analyzed, analyzed_from, clear_at, edits_of, is_linear_loop, lemma_linked_well,
    linked, loop_body, scan_at,
};
use crate::passes::{flat, lemma_analyzed_balanced, lemma_steps_concat};
use vstd::prelude::*;

verus! {

/// Whether a loop is recognized at `a`.
pub open spec fn recognized(p: Seq<Op>, a: int) -> bool {
    addto_at(p, a) is Some || scan_at(p, a) is Some || clear_at(p, a) || is_linear_loop(p, a)
}

/// Where recognition goes on behind `a`: behind the loop that is recognized
/// at `a`, or behind the one instruction at `a`.
pub open spec fn next_stop(p: Seq<Op>, a: int) -> int {
    if addto_at(p, a) is Some {
        a + 6
    } else if scan_at(p, a) is Some {
        a + 3
    } else if clear_at(p, a) {
        a + 3
    } else if is_linear_loop(p, a) {
        p[a]->Jz_0 + 1
    } else {
        a + 1
    }
}

/// The instruction that recognition gives for what starts at `a`.
pub open spec fn replaced(p: Seq<Op>, a: int) -> Op {
    if addto_at(p, a) is Some {
        Op::AddTo(p[a + 2]->Move_0, p[a + 3]->Add_0)
    } else if scan_at(p, a) is Some {
        Op::Scan(p[a + 1]->Move_0)
    } else if clear_at(p, a) {
        Op::SetZero
    } else if is_linear_loop(p, a) {
        Op::AddMul(edits_of(loop_body(p, a)))
    } else {
        p[a]
    }
}

/// Whether recognition, going on from `a`, comes to stand at `i`.
pub open spec fn reached(p: Seq<Op>, a: int, i: int) -> bool
    decreases
        if i >= a {
            i - a
        } else {
            0
        },
{
    a == i || (0 <= a < i && a < p.len() && a < next_stop(p, a) && reached(p, next_stop(p, a), i))
}

/// Where the instructions for `p[i..]` start in the program with its loops
/// recognized.
pub open spec fn seat(p: Seq<Op>, i: int) -> int {
    analyzed(p).len() - analyzed_from(p, i).len()
}

/// What recognition makes of what starts at `a`: one instruction, and then
/// what it makes of the rest. A loop that it recognizes has no jump inside.
pub proof fn lemma_next_stop(p: Seq<Op>, a: int)
    requires
        0 <= a < p.len(),
    ensures
        a < next_stop(p, a) <= p.len(),
        analyzed_from(p, a) == seq![replaced(p, a)] + analyzed_from(p, next_stop(p, a)),
        jump_step(replaced(p, a)) == if recognized(p, a) {
            0
        } else {
            jump_step(p[a])
        },
        recognized(p, a) ==> p[a] is Jz && p[next_stop(p, a) - 1] is Jnz && flat(
            p,
            a + 1,
            next_stop(p, a) - 1,
        ) && a + 1 < next_stop(p, a),
{
    if addto_at(p, a) is Some {
    } else if scan_at(p, a) is Some {
    } else if clear_at(p, a) {
    } else if is_linear_loop(p, a) {
        let t = p[a]->Jz_0 as int;
        let body = loop_body(p, a);
        assert forall|k: int| a + 1 <= k < t implies jump_step(#[trigger] p[k]) == 0 by {
            assert(body[k - a - 1] == p[k]);
            assert(body[k - a - 1] is Add || body[k - a - 1] is Move);
        }
    } else {
    }
}

/// Recognition only goes forward.
pub proof fn lemma_reached_le(p: Seq<Op>, a: int, i: int)
    requires
        reached(p, a, i),
    ensures
        a <= i,
{
}

/// Where recognition comes from `a` to `b` and from `b` to `c`, it comes from
/// `a` to `c`.
pub proof fn lemma_reached_trans(p: Seq<Op>, a: int, b: int, c: int)
    requires
        reached(p, a, b),
        reached(p, b, c),
    ensures
        reached(p, a, c),
    decreases
        if b >= a {
            b - a
        } else {
            0
        },
{
    if a != b {
        lemma_reached_le(p, b, c);
        lemma_reached_trans(p, next_stop(p, a), b, c);
    }
}

/// What recognition makes of `p[a..]` ends with what it makes of `p[i..]`,
/// where it comes from `a` to `i`.
pub proof fn lemma_seat_suffix(p: Seq<Op>, a: int, i: int)
    requires
        0 <= a,
        i <= p.len(),
        reached(p, a, i),
    ensures
        analyzed_from(p, a).len() >= analyzed_from(p, i).len(),
        analyzed_from(p, a).skip(analyzed_from(p, a).len() - analyzed_from(p, i).len())
            == analyzed_from(p, i),
    decreases
        if i >= a {
            i - a
        } else {
            0
        },
{
    let whole = analyzed_from(p, a);
    if a == i {
        assert(whole.skip(0) =~= whole);
    } else {
        lemma_next_stop(p, a);
        let n = next_stop(p, a);
        lemma_seat_suffix(p, n, i);
        let rest = analyzed_from(p, n);
        assert(whole.skip(1) =~= rest);
        assert(whole.skip(whole.len() - analyzed_from(p, i).len()) =~= rest.skip(
            rest.len() - analyzed_from(p, i).len(),
        ));
    }
}

/// The program with its loops recognized, from the seat of a stop on.
pub proof fn lemma_seat(p: Seq<Op>, i: int)
    requires
        i <= p.len(),
        reached(p, 0, i),
    ensures
        0 <= seat(p, i) <= analyzed(p).len(),
        analyzed(p).skip(seat(p, i)) == analyzed_from(p, i),
{
    lemma_seat_suffix(p, 0, i);
}

/// What [`closer`] finds in the program with its loops recognized is the seat
/// of what it finds in the given one.
pub proof fn lemma_analyzed_closer(p: Seq<Op>, i: int, h: int)
    requires
        0 <= i <= p.len(),
        h >= 1,
    ensures
        i + closer(jump_steps(p.skip(i)), h) <= p.len(),
        reached(p, i, i + closer(jump_steps(p.skip(i)), h)),
        closer(jump_steps(analyzed_from(p, i)), h) == analyzed_from(p, i).len() - analyzed_from(
            p,
            i + closer(jump_steps(p.skip(i)), h),
        ).len(),
    decreases p.len() - i,
{
    if i >= p.len() {
        assert(p.skip(i) =~= Seq::<Op>::empty());
    } else {
        lemma_next_stop(p, i);
        let n = next_stop(p, i);
        let op = replaced(p, i);
        lemma_steps_concat(seq![op], analyzed_from(p, n));
        assert(jump_steps(seq![op]) =~= seq![jump_step(op)]);
        lemma_closer_one(jump_step(op), jump_steps(analyzed_from(p, n)), h);
        if recognized(p, i) {
            let y = n - 1;
            let inner = p.subrange(i + 1, y);
            let z = jump_steps(inner);
            let rest = jump_steps(p.skip(n));
            assert forall|k: int| 0 <= k < z.len() implies #[trigger] z[k] == 0 by {
                assert(inner[k] == p[i + 1 + k]);
            }
            assert(jump_steps(p.skip(i)) =~= seq![1int] + z + seq![-1int] + rest) by {
                let whole = jump_steps(p.skip(i));
                let parts = seq![1int] + z + seq![-1int] + rest;
                assert(whole.len() == parts.len());
                assert forall|k: int| 0 <= k < whole.len() implies whole[k] == parts[k] by {
                    assert(p.skip(i)[k] == p[i + k]);
                    if 0 < k && k < y - i {
                        assert(z[k - 1] == jump_step(inner[k - 1]));
                    } else if k > y - i {
                        assert(rest[k - (y - i) - 1] == jump_step(p.skip(n)[k - (y - i) - 1]));
                    }
                }
            }
            lemma_closer_loop(z, rest, h);
            lemma_analyzed_closer(p, n, h);
        } else {
            let st = jump_step(p[i]);
            assert(p.skip(i) =~= seq![p[i]] + p.skip(i + 1));
            lemma_steps_concat(seq![p[i]], p.skip(i + 1));
            assert(jump_steps(seq![p[i]]) =~= seq![st]);
            lemma_closer_one(st, jump_steps(p.skip(i + 1)), h);
            if h + st != 0 {
                lemma_analyzed_closer(p, i + 1, h + st);
            }
        }
    }
}

/// The program with its loops recognized and its jumps linked.
pub open spec fn analyzed_linked(p: Seq<Op>) -> Seq<Op> {
    linked(analyzed(p))
}

/// A stop that is no recognized loop is followed by a stop one further on.
pub proof fn lemma_stop_single(p: Seq<Op>, a: int)
    requires
        reached(p, 0, a),
        0 <= a < p.len(),
        !recognized(p, a),
    ensures
        reached(p, 0, a + 1),
        0 <= seat(p, a) < analyzed(p).len(),
        analyzed(p)[seat(p, a)] == p[a],
        seat(p, a + 1) == seat(p, a) + 1,
{
    lemma_next_stop(p, a);
    assert(reached(p, a + 1, a + 1));
    assert(reached(p, a, a + 1));
    lemma_reached_trans(p, 0, a, a + 1);
    lemma_seat(p, a);
    lemma_seat(p, a + 1);
    assert(analyzed_from(p, a)[0] == p[a]);
    assert(analyzed(p).skip(seat(p, a))[0] == analyzed(p)[seat(p, a)]);
}

/// A stop at which a loop is recognized is followed by a stop behind the
/// loop, and the one instruction for the loop sits at its seat.
pub proof fn lemma_stop_loop(p: Seq<Op>, a: int)
    requires
        reached(p, 0, a),
        0 <= a < p.len(),
        recognized(p, a),
    ensures
        a < next_stop(p, a) <= p.len(),
        reached(p, 0, next_stop(p, a)),
        0 <= seat(p, a) < analyzed(p).len(),
        analyzed(p)[seat(p, a)] == replaced(p, a),
        jump_step(replaced(p, a)) == 0,
        seat(p, next_stop(p, a)) == seat(p, a) + 1,
{
    lemma_next_stop(p, a);
    let n = next_stop(p, a);
    assert(reached(p, n, n));
    assert(reached(p, a, n));
    lemma_reached_trans(p, 0, a, n);
    lemma_seat(p, a);
    lemma_seat(p, n);
    assert(analyzed_from(p, a)[0] == replaced(p, a));
    assert(analyzed(p).skip(seat(p, a))[0] == analyzed(p)[seat(p, a)]);
}

/// A `Jz` that is copied keeps its partner: where the `Jz` at the stop `a`
/// and the `Jnz` at `t` of the given program name each other, `t` is a
/// stop, and the jumps at the seats of the two name each other.
pub proof fn lemma_analyzed_partner(p: Seq<Op>, a: int, t: int)
    requires
        well_linked(p),
        p.len() <= usize::MAX,
        analyzed(p).len() <= usize::MAX,
        reached(p, 0, a),
        0 <= a < p.len(),
        !recognized(p, a),
        p[a] == Op::Jz(t as usize),
        0 <= t <= usize::MAX,
    ensures
        a < t < p.len(),
        reached(p, 0, t),
        reached(p, 0, t + 1),
        reached(p, 0, a + 1),
        !recognized(p, t),
        seat(p, a + 1) == seat(p, a) + 1,
        seat(p, t + 1) == seat(p, t) + 1,
        0 <= seat(p, a) < seat(p, t) < analyzed(p).len(),
        analyzed_linked(p)[seat(p, a)] == Op::Jz(seat(p, t) as usize),
        analyzed_linked(p)[seat(p, t)] == Op::Jnz(seat(p, a) as usize),
{
    let d = jump_steps(p);
    let m = analyzed(p);
    let q = analyzed_linked(p);
    let dm = jump_steps(m);
    assert(pairs(d, a, t));
    lemma_analyzed_balanced(p);
    lemma_linked_well(m);
    lemma_unit_steps(p);
    lemma_unit_steps(m);
    lemma_pairs_closer(d, a, t);
    lemma_steps_skip(p, a + 1);
    lemma_analyzed_closer(p, a + 1, 1);
    lemma_stop_single(p, a);
    lemma_reached_trans(p, 0, a + 1, t);
    assert(!recognized(p, t));
    lemma_stop_single(p, t);
    lemma_seat(p, a + 1);
    lemma_seat(p, t);
    let pa = seat(p, a);
    let pt = seat(p, t);
    lemma_steps_skip(m, pa + 1);
    lemma_pairs_closer(dm, pa, pt);
    assert(pairs(dm, pa, pt));
    assert(jump_step(q[pa]) == jump_step(m[pa]));
    assert(jump_step(q[pt]) == jump_step(m[pt]));
    match q[pa] {
        Op::Jz(x) => {
            lemma_pairs_unique_close(dm, pa, pt, x as int);
        },
        _ => {},
    }
    match q[pt] {
        Op::Jnz(x) => {
            lemma_pairs_unique_open(dm, pa, x as int, pt);
        },
        _ => {},
    }
}

/// Where recognition comes to stand at a `Jnz`, it stood at the `Jz` of that
/// loop, and did not recognize the loop.
pub proof fn lemma_open_reached(p: Seq<Op>, x: int, a: int, t: int)
    requires
        well_linked(p),
        p.len() <= usize::MAX,
        0 <= x <= t < a < p.len(),
        reached(p, x, a),
        p[a] == Op::Jnz(t as usize),
    ensures
        reached(p, x, t),
        !recognized(p, t),
    decreases t - x,
{
    let d = jump_steps(p);
    assert(pairs(d, t, a));
    lemma_jumps_mutual(p, t, a);
    lemma_next_stop(p, x);
    let n = next_stop(p, x);
    lemma_reached_le(p, n, a);
    if x == t {
        if recognized(p, t) {
            assert(p[t]->Jz_0 == a);
            assert(n == a + 1);
        }
    } else {
        if recognized(p, x) {
            if n > t {
                assert(jump_step(p[t]) == 0);
            }
        }
        lemma_open_reached(p, n, a, t);
    }
}

/// A recognized loop does what the instruction that replaces it does.
proof fn lemma_loop_done(p: Seq<Op>, s: State, lim: Limits, n: nat) -> (k: nat)
    requires
        !lim.tracing,
        p.len() <= usize::MAX,
        recognized(p, s.ip),
        s.m.wf(),
        s.m.cells.len() <= lim.cap <= usize::MAX,
        run_n(p, s, lim, n).1 is Done,
    ensures
        loop_done(p, s, lim, n, k, next_stop(p, s.ip), replaced(p, s.ip)),
{
    if addto_at(p, s.ip) is Some {
        lemma_addto_done(p, s, lim, n)
    } else if scan_at(p, s.ip) is Some {
        lemma_scan_done(p, s, lim, n)
    } else if clear_at(p, s.ip) {
        lemma_clear_done(p, s, lim, n)
    } else {
        lemma_linear_loop_done(p, s, lim, n)
    }
}

/// The program with its loops recognized follows the given one through a
/// recognized loop, in one step.
proof fn lemma_analysis_loop(p: Seq<Op>, sp: State, sq: State, lim: Limits, n: nat) -> (k: nat)
    requires
        well_linked(p),
        p.len() <= usize::MAX,
        analyzed(p).len() <= usize::MAX,
        !lim.tracing,
        reached(p, 0, sp.ip),
        0 <= sp.ip < p.len(),
        recognized(p, sp.ip),
        sq.ip == seat(p, sp.ip),
        follows(sq, sp, lim.cap),
        run_n(p, sp, lim, n).1 is Done,
    ensures
        1 <= k <= n,
        run_n(p, sp, lim, k).1 is Running,
        run_n(p, sp, lim, k).0.ip <= p.len(),
        reached(p, 0, run_n(p, sp, lim, k).0.ip),
        step(analyzed_linked(p), sq, lim).1 is Running,
        step(analyzed_linked(p), sq, lim).0.ip == seat(p, run_n(p, sp, lim, k).0.ip),
        follows(step(analyzed_linked(p), sq, lim).0, run_n(p, sp, lim, k).0, lim.cap),
{
    let a = sp.ip;
    let q = analyzed_linked(p);
    let m = analyzed(p);
    lemma_analyzed_balanced(p);
    lemma_linked_well(m);
    lemma_stop_loop(p, a);
    let k = lemma_loop_done(p, sp, lim, n);
    assert(jump_step(q[sq.ip]) == jump_step(m[sq.ip]));
    lemma_worked_step(q, sq, sp, lim, replaced(p, a), run_n(p, sp, lim, k).0.m);
    k
}

/// The program with its loops recognized follows the given one over a
/// jump that is copied.
proof fn lemma_analysis_jump(p: Seq<Op>, sp: State, sq: State, lim: Limits, n: nat)
    requires
        well_linked(p),
        p.len() <= usize::MAX,
        analyzed(p).len() <= usize::MAX,
        !lim.tracing,
        reached(p, 0, sp.ip),
        0 <= sp.ip < p.len(),
        !recognized(p, sp.ip),
        p[sp.ip] is Jz || p[sp.ip] is Jnz,
        sq.ip == seat(p, sp.ip),
        follows(sq, sp, lim.cap),
        run_n(p, sp, lim, n).1 is Done,
    ensures
        step(p, sp, lim).1 is Running,
        step(p, sp, lim).0.ip <= p.len(),
        reached(p, 0, step(p, sp, lim).0.ip),
        step(analyzed_linked(p), sq, lim).1 is Running,
        step(analyzed_linked(p), sq, lim).0.ip == seat(p, step(p, sp, lim).0.ip),
        follows(step(analyzed_linked(p), sq, lim).0, step(p, sp, lim).0, lim.cap),
{
    let a = sp.ip;
    let q = analyzed_linked(p);
    lemma_first_step(p, sp, lim, n);
    lemma_step_allowed(p, sp, lim);
    lemma_stop_single(p, a);
    assert(cell_at(sq.m, sq.m.pointer) == cell_at(sp.m, sp.m.pointer));
    match p[a] {
        Op::Jz(t) => {
            assert(pairs(jump_steps(p), a, t as int));
            lemma_analyzed_partner(p, a, t as int);
            lemma_step_jz(p, sp, lim, t);
            lemma_step_jz(q, sq, lim, seat(p, t as int) as usize);
        },
        Op::Jnz(t) => {
            assert(pairs(jump_steps(p), t as int, a));
            lemma_jumps_mutual(p, t as int, a);
            lemma_open_reached(p, 0, a, t as int);
            lemma_analyzed_partner(p, t as int, a);
            lemma_step_jnz(p, sp, lim, t);
            lemma_step_jnz(q, sq, lim, seat(p, t as int) as usize);
        },
        _ => {},
    }
}

/// The program with its loops recognized follows the given one over an
/// instruction that is neither a loop nor a jump.
proof fn lemma_analysis_plain(p: Seq<Op>, sp: State, sq: State, lim: Limits, n: nat)
    requires
        well_linked(p),
        p.len() <= usize::MAX,
        analyzed(p).len() <= usize::MAX,
        !lim.tracing,
        reached(p, 0, sp.ip),
        0 <= sp.ip < p.len(),
        !recognized(p, sp.ip),
        !(p[sp.ip] is Jz || p[sp.ip] is Jnz),
        sq.ip == seat(p, sp.ip),
        follows(sq, sp, lim.cap),
        run_n(p, sp, lim, n).1 is Done,
    ensures
        step(p, sp, lim).1 is Running,
        step(p, sp, lim).0.ip <= p.len(),
        reached(p, 0, step(p, sp, lim).0.ip),
        step(analyzed_linked(p), sq, lim).1 is Running,
        step(analyzed_linked(p), sq, lim).0.ip == seat(p, step(p, sp, lim).0.ip),
        follows(step(analyzed_linked(p), sq, lim).0, step(p, sp, lim).0, lim.cap),
{
    let a = sp.ip;
    let q = analyzed_linked(p);
    let m = analyzed(p);
    lemma_analyzed_balanced(p);
    lemma_linked_well(m);
    lemma_first_step(p, sp, lim, n);
    lemma_stop_single(p, a);
    assert(jump_step(q[sq.ip]) == jump_step(m[sq.ip]));
    lemma_step_follows(p, q, sp, sq, lim);
}

/// At the end of the given program the program with its loops recognized
/// is at its end.
proof fn lemma_analysis_end(p: Seq<Op>, sp: State, sq: State, lim: Limits, n: nat)
    requires
        p.len() <= usize::MAX,
        analyzed(p).len() <= usize::MAX,
        balanced(jump_steps(p)),
        sp.ip == p.len(),
        sq.ip == seat(p, sp.ip),
        run_n(p, sp, lim, n).1 is Done,
    ensures
        n >= 1,
        run_n(p, sp, lim, n).0 == sp,
        run_n(analyzed_linked(p), sq, lim, 1) == (sq, Status::Done),
{
    let q = analyzed_linked(p);
    lemma_analyzed_balanced(p);
    lemma_linked_well(analyzed(p));
    lemma_run_one(p, sp, lim);
    lemma_run_one(q, sq, lim);
    assert(run_n(p, sp, lim, 0).1 is Running);
    lemma_run_stopped(p, sp, lim, 1, (n - 1) as nat);
    assert(1 + (n - 1) as nat == n);
}

/// The program with its loops recognized and its jumps linked does what the
/// given program does: where the run of the given program from a stop
/// comes to its end, the run of the other from the seat of that stop comes to
/// its end, in no more steps and with the same result.
pub proof fn lemma_analysis_sim(p: Seq<Op>, sp: State, sq: State, lim: Limits, n: nat) -> (m: nat)
    requires
        well_linked(p),
        p.len() <= usize::MAX,
        analyzed(p).len() <= usize::MAX,
        !lim.tracing,
        reached(p, 0, sp.ip),
        0 <= sp.ip <= p.len(),
        sq.ip == seat(p, sp.ip),
        follows(sq, sp, lim.cap),
        run_n(p, sp, lim, n).1 is Done,
    ensures
        m <= n,
        run_n(analyzed_linked(p), sq, lim, m).1 is Done,
        follows(run_n(analyzed_linked(p), sq, lim, m).0, run_n(p, sp, lim, n).0, lim.cap),
    decreases n,
{
    let q = analyzed_linked(p);
    if sp.ip >= p.len() {
        lemma_analysis_end(p, sp, sq, lim, n);
        1
    } else {
        lemma_run_one(q, sq, lim);
        let k: nat = if recognized(p, sp.ip) {
            lemma_analysis_loop(p, sp, sq, lim, n)
        } else {
            lemma_first_step(p, sp, lim, n);
            if p[sp.ip] is Jz || p[sp.ip] is Jnz {
                lemma_analysis_jump(p, sp, sq, lim, n);
            } else {
                lemma_analysis_plain(p, sp, sq, lim, n);
            }
            1
        };
        let tp = run_n(p, sp, lim, k).0;
        let tq = step(q, sq, lim).0;
        lemma_run_split(p, sp, lim, k, (n - k) as nat);
        let rest = lemma_analysis_sim(p, tp, tq, lim, (n - k) as nat);
        lemma_run_split(q, sq, lim, 1, rest);
        1 + rest
    }
}

} // verus!
