//! Runs, taken apart: a run of many steps is a run of some steps and then a
//! run of the rest.

use crate::agree::{follows, lemma_dispatch_follows};
use crate::ir::Op;
use crate::machine::{
    apply_edits, dispatch, run_n, scan_right, shift, step, wrap, Fault, Limits, Machine, State,
    Status,
};
use vstd::prelude::*;

verus! {

/// A run that has stopped stays as it is.
pub proof fn lemma_run_stopped(p: Seq<Op>, s: State, lim: Limits, a: nat, b: nat)
    requires
        !(run_n(p, s, lim, a).1 is Running),
    ensures
        run_n(p, s, lim, a + b) == run_n(p, s, lim, a),
    decreases b,
{
    if b > 0 {
        lemma_run_stopped(p, s, lim, a, (b - 1) as nat);
    }
}

/// A run of `a + b` steps is a run of `a` steps and, from where that got to,
/// a run of `b` steps.
pub proof fn lemma_run_split(p: Seq<Op>, s: State, lim: Limits, a: nat, b: nat)
    requires
        run_n(p, s, lim, a).1 is Running,
    ensures
        run_n(p, s, lim, a + b) == run_n(p, run_n(p, s, lim, a).0, lim, b),
    decreases b,
{
    if b > 0 {
        lemma_run_split(p, s, lim, a, (b - 1) as nat);
    }
}

/// One step is a run of one step.
pub proof fn lemma_run_one(p: Seq<Op>, s: State, lim: Limits)
    ensures
        run_n(p, s, lim, 1) == step(p, s, lim),
{
    assert(run_n(p, s, lim, 0) == (s, Status::Running));
}

/// A step that leaves the run running has dispatched the instruction at the
/// instruction pointer, and counted itself.
pub proof fn lemma_step_running(p: Seq<Op>, s: State, lim: Limits)
    requires
        !lim.tracing,
        step(p, s, lim).1 is Running,
    ensures
        0 <= s.ip < p.len(),
        s.steps < u64::MAX,
        lim.max_steps is Some ==> s.steps < lim.max_steps->0,
        step(p, s, lim) == dispatch(p, State { steps: s.steps + 1, ..s }, p[s.ip], lim.cap),
{
}

/// Where the fuller state takes a step over an instruction that is no jump,
/// the leaner state takes the same step over the same instruction.
pub proof fn lemma_step_follows(pp: Seq<Op>, qq: Seq<Op>, p: State, q: State, lim: Limits)
    requires
        !lim.tracing,
        follows(q, p, lim.cap),
        step(pp, p, lim).1 is Running,
        0 <= q.ip < qq.len(),
        qq[q.ip] == pp[p.ip],
        !(pp[p.ip] is Jz) && !(pp[p.ip] is Jnz),
    ensures
        step(qq, q, lim).1 is Running,
        follows(step(qq, q, lim).0, step(pp, p, lim).0, lim.cap),
        step(pp, p, lim).0.ip == p.ip + 1,
        step(qq, q, lim).0.ip == q.ip + 1,
        step(pp, p, lim).0.steps == p.steps + 1,
        step(qq, q, lim).0.steps == q.steps + 1,
{
    lemma_step_running(pp, p, lim);
    let pc = State { steps: p.steps + 1, ..p };
    let qc = State { steps: q.steps + 1, ..q };
    lemma_dispatch_follows(pp, qq, pc, qc, pp[p.ip], lim.cap);
}

/// Whether a step may be taken by a run that has taken `steps` steps.
pub open spec fn may_step(lim: Limits, steps: int) -> bool {
    steps < u64::MAX && (lim.max_steps is Some ==> steps < lim.max_steps->0)
}

/// A step over an `Add`.
pub proof fn lemma_step_add(q: Seq<Op>, s: State, lim: Limits, d: i32)
    requires
        !lim.tracing,
        0 <= s.ip < q.len(),
        q[s.ip] == Op::Add(d),
        may_step(lim, s.steps),
    ensures
        step(q, s, lim).1 is Running,
        step(q, s, lim).0 == (State {
            m: s.m.set_cell(wrap(s.m.cell() + d)),
            ip: s.ip + 1,
            steps: s.steps + 1,
            ..s
        }),
{
    reveal(dispatch);
}

/// A step over a `Move`.
pub proof fn lemma_step_move(q: Seq<Op>, s: State, lim: Limits, d: i32)
    requires
        !lim.tracing,
        0 <= s.ip < q.len(),
        q[s.ip] == Op::Move(d),
        may_step(lim, s.steps),
        shift(s.m, d as int, lim.cap) is Ok,
    ensures
        step(q, s, lim).1 is Running,
        step(q, s, lim).0 == (State {
            m: shift(s.m, d as int, lim.cap)->Ok_0,
            ip: s.ip + 1,
            steps: s.steps + 1,
            ..s
        }),
{
    reveal(dispatch);
}

/// Adding in two goes is adding at once.
pub proof fn lemma_wrap_twice(c: int, x: int, y: int)
    ensures
        wrap(wrap(c + x) + y) == wrap(c + x + y),
{
}

/// A run that comes to its end from inside the program takes a first step,
/// and goes on behind it.
pub proof fn lemma_first_step(p: Seq<Op>, s: State, lim: Limits, n: nat)
    requires
        run_n(p, s, lim, n).1 is Done,
        0 <= s.ip < p.len(),
    ensures
        n >= 2,
        step(p, s, lim).1 is Running,
        run_n(p, s, lim, 1) == step(p, s, lim),
        run_n(p, step(p, s, lim).0, lim, (n - 1) as nat).1 is Done,
        run_n(p, step(p, s, lim).0, lim, (n - 1) as nat) == run_n(p, s, lim, n),
{
    lemma_run_one(p, s, lim);
    lemma_never_done(p, s, lim);
    assert(run_n(p, s, lim, 0).1 is Running);
    if n >= 1 {
        if !(step(p, s, lim).1 is Running) {
            lemma_run_stopped(p, s, lim, 1, (n - 1) as nat);
            assert(1 + (n - 1) as nat == n);
        } else {
            lemma_run_split(p, s, lim, 1, (n - 1) as nat);
            assert(1 + (n - 1) as nat == n);
            assert(run_n(p, step(p, s, lim).0, lim, 0).1 is Running);
        }
    }
}

/// Inside the program no step ends the run with success.
pub proof fn lemma_never_done(p: Seq<Op>, s: State, lim: Limits)
    requires
        0 <= s.ip < p.len(),
    ensures
        !(step(p, s, lim).1 is Done),
{
    reveal(dispatch);
}

/// A step over a `Jz` with its target in the program.
pub proof fn lemma_step_jz(q: Seq<Op>, s: State, lim: Limits, t: usize)
    requires
        !lim.tracing,
        0 <= s.ip < q.len(),
        q[s.ip] == Op::Jz(t),
        t < q.len(),
        may_step(lim, s.steps),
    ensures
        step(q, s, lim).1 is Running,
        step(q, s, lim).0 == (State {
            ip: if s.m.cell() == 0 {
                t + 1
            } else {
                s.ip + 1
            },
            steps: s.steps + 1,
            ..s
        }),
{
    reveal(dispatch);
}

/// A step over a `Jnz` with its target in the program.
pub proof fn lemma_step_jnz(q: Seq<Op>, s: State, lim: Limits, t: usize)
    requires
        !lim.tracing,
        0 <= s.ip < q.len(),
        q[s.ip] == Op::Jnz(t),
        t < q.len(),
        may_step(lim, s.steps),
    ensures
        step(q, s, lim).1 is Running,
        step(q, s, lim).0 == (State {
            ip: if s.m.cell() != 0 {
                t as int
            } else {
                s.ip + 1
            },
            steps: s.steps + 1,
            ..s
        }),
{
    reveal(dispatch);
}

/// A step that leaves the run running was allowed.
pub proof fn lemma_step_allowed(p: Seq<Op>, s: State, lim: Limits)
    requires
        !lim.tracing,
        step(p, s, lim).1 is Running,
    ensures
        may_step(lim, s.steps),
        0 <= s.ip < p.len(),
{
}

/// Whether a run stopped for want of tape.
pub open spec fn out_of_tape(status: Status) -> bool {
    status == Status::Failed(Fault::TapeSizeOverflow)
}

/// Edits that could be applied, or failed for another reason than want of
/// tape, are applied in the same way where the tape may grow further.
proof fn lemma_edits_cap(m: Machine, v: u8, edits: Seq<(i32, i32)>, k: int, cap: int, more: int)
    requires
        cap <= more,
        apply_edits(m, v, edits, k, cap).1 != Some(Fault::TapeSizeOverflow),
    ensures
        apply_edits(m, v, edits, k, more) == apply_edits(m, v, edits, k, cap),
    decreases k,
{
    if k > 0 {
        lemma_edits_cap(m, v, edits, k - 1, cap, more);
    }
}

/// A scan to the right that ended, or failed for another reason than want of
/// tape, goes the same way where the tape may grow further.
proof fn lemma_scan_cap(m: Machine, cap: int, more: int)
    requires
        cap <= more,
        scan_right(m, cap).1 != Some(Fault::TapeSizeOverflow),
    ensures
        scan_right(m, more) == scan_right(m, cap),
    decreases usize::MAX - m.pointer,
{
    if m.cell() != 0 {
        match shift(m, 1, cap) {
            Ok(g) => {
                lemma_scan_cap(g, cap, more);
            },
            Err(_) => {},
        }
    }
}

/// A step that did not fail for want of tape is the same step where the tape
/// may grow further.
pub proof fn lemma_step_cap(p: Seq<Op>, s: State, lim: Limits, more: int)
    requires
        lim.cap <= more,
        !out_of_tape(step(p, s, lim).1),
    ensures
        step(p, s, Limits { cap: more, ..lim }) == step(p, s, lim),
{
    reveal(dispatch);
    if 0 <= s.ip < p.len() && !(lim.max_steps is Some && s.steps >= lim.max_steps->0) && s.steps
        < u64::MAX {
        let m = s.m;
        match p[s.ip] {
            Op::AddMul(edits) => {
                if m.cell() != 0 {
                    lemma_edits_cap(m, m.cell(), edits, edits.len() as int, lim.cap, more);
                }
            },
            Op::Scan(dir) => {
                if dir > 0 {
                    lemma_scan_cap(m, lim.cap, more);
                }
            },
            _ => {},
        }
    }
}

/// A run that did not fail for want of tape is the same run where the tape
/// may grow further.
pub proof fn lemma_run_cap(p: Seq<Op>, s: State, lim: Limits, more: int, n: nat)
    requires
        lim.cap <= more,
        !out_of_tape(run_n(p, s, lim, n).1),
    ensures
        run_n(p, s, Limits { cap: more, ..lim }, n) == run_n(p, s, lim, n),
    decreases n,
{
    if n > 0 {
        let before = run_n(p, s, lim, (n - 1) as nat);
        lemma_run_cap(p, s, lim, more, (n - 1) as nat);
        if before.1 is Running {
            lemma_step_cap(p, before.0, lim, more);
        }
    }
}

/// A run stops in one way only: where it has stopped after `a` steps and
/// after `b` steps, it has stopped in the same state for the same reason.
pub proof fn lemma_run_stops_once(p: Seq<Op>, s: State, lim: Limits, a: nat, b: nat)
    requires
        !(run_n(p, s, lim, a).1 is Running),
        !(run_n(p, s, lim, b).1 is Running),
    ensures
        run_n(p, s, lim, a) == run_n(p, s, lim, b),
{
    if a <= b {
        lemma_run_stopped(p, s, lim, a, (b - a) as nat);
    } else {
        lemma_run_stopped(p, s, lim, b, (a - b) as nat);
    }
}

/// A run never takes more steps than its budget: under a budget of `N`
/// steps, no state of the run has counted more than `N`.
pub proof fn lemma_budget_kept(p: Seq<Op>, s: State, lim: Limits, n: nat)
    requires
        lim.max_steps is Some,
        s.steps <= lim.max_steps->0,
    ensures
        run_n(p, s, lim, n).0.steps <= lim.max_steps->0,
    decreases n,
{
    reveal(dispatch);
    if n > 0 {
        lemma_budget_kept(p, s, lim, (n - 1) as nat);
    }
}

} // verus!
