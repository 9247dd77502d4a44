//! Why loop recognition keeps what a program does: what a recognized loop
//! comes to, step by step.

use crate::agree::{
    cell_at, descends, follows, lean, lemma_descends_le, lemma_descends_trans,
    lemma_dispatch_follows, lemma_lean_trans, lemma_reach_into, lemma_shift_stretched, roomier,
};
use crate::ir::Op;
use crate::machine::{
    add_mul, add_to, apply_edits, dispatch, reach, run_n, scan, shift, step, wrap, Fault, Limits,
    Machine, State, Status,
};
use crate::opt::{
    addto_at, clear_at, edits_in, edits_of, is_linear_loop, loop_body, net, net_upto, offset_at,
    scan_at,
};
use crate::ir::jump_step;
use crate::merge_sound::lemma_run_through;
use crate::passes::flat;
use crate::runs::{
    lemma_first_step, lemma_run_one, lemma_run_split, lemma_run_stopped, lemma_step_add,
    lemma_step_allowed, lemma_step_jnz, lemma_step_jz, lemma_step_move, lemma_wrap_twice,
    may_step,
};
use vstd::prelude::*;

verus! {

/// Whether `now` is what `start` has come to after the first `m`
/// instructions of a body of `Add`s and `Move`s: the pointer moved by the
/// offset, every cell changed by what was added at its offset, and every
/// offset that was added to on the tape.
pub open spec fn passed(start: Machine, body: Seq<Op>, m: int, now: Machine) -> bool {
    &&& roomier(start, now)
    &&& now.pointer == start.pointer + offset_at(body, m)
    &&& forall|i: int|
        #[trigger] cell_at(now, i) == wrap(
            cell_at(start, i) + net_upto(body, m, i - start.pointer),
        )
    &&& forall|o: int|
        #[trigger] net_upto(body, m, o) != 0 ==> 0 <= start.pointer + o < now.cells.len()
}

/// A `Move` that left the run running moved the pointer.
proof fn lemma_move_ran(p: Seq<Op>, s: State, lim: Limits, d: i32)
    requires
        !lim.tracing,
        0 <= s.ip < p.len(),
        p[s.ip] == Op::Move(d),
        step(p, s, lim).1 is Running,
    ensures
        shift(s.m, d as int, lim.cap) is Ok,
{
    reveal(crate::machine::dispatch);
}

/// What the first `m` instructions of a body of `Add`s and `Move`s do.
pub proof fn lemma_body_pass(p: Seq<Op>, s: State, lim: Limits, a: int, t: int, m: nat)
    requires
        !lim.tracing,
        0 <= a < t <= p.len(),
        forall|k: int| a < k < t ==> #[trigger] p[k] is Add || p[k] is Move,
        s.ip == a + 1,
        s.m.wf(),
        s.m.cells.len() <= lim.cap <= usize::MAX,
        m <= t - a - 1,
        run_n(p, s, lim, m).1 is Running,
    ensures
        run_n(p, s, lim, m).0.ip == a + 1 + m,
        run_n(p, s, lim, m).0.steps == s.steps + m,
        run_n(p, s, lim, m).0.input == s.input,
        run_n(p, s, lim, m).0.output == s.output,
        run_n(p, s, lim, m).0.trace == s.trace,
        run_n(p, s, lim, m).0.m.cells.len() <= lim.cap,
        passed(s.m, p.subrange(a + 1, t), m as int, run_n(p, s, lim, m).0.m),
    decreases m,
{
    let body = p.subrange(a + 1, t);
    if m == 0 {
        assert forall|i: int| #[trigger] cell_at(s.m, i) == wrap(cell_at(s.m, i) + 0) by {}
    } else {
        let before = run_n(p, s, lim, (m - 1) as nat);
        if !(before.1 is Running) {
            lemma_run_stopped(p, s, lim, (m - 1) as nat, 1);
        }
        lemma_body_pass(p, s, lim, a, t, (m - 1) as nat);
        let u = before.0;
        let r = run_n(p, s, lim, m).0;
        lemma_step_allowed(p, u, lim);
        assert(body[m - 1] == p[a + m]);
        let here = offset_at(body, m - 1);
        match p[a + m] {
            Op::Add(d) => {
                lemma_step_add(p, u, lim, d);
                assert forall|i: int| #[trigger] cell_at(r.m, i) == wrap(
                    cell_at(s.m, i) + net_upto(body, m as int, i - s.m.pointer),
                ) by {
                    assert(cell_at(u.m, i) == wrap(
                        cell_at(s.m, i) + net_upto(body, m - 1, i - s.m.pointer),
                    ));
                    if i == u.m.pointer {
                        lemma_wrap_twice(
                            cell_at(s.m, i) as int,
                            net_upto(body, m - 1, here),
                            d as int,
                        );
                    }
                }
                assert forall|o: int| #[trigger] net_upto(body, m as int, o) != 0 implies 0
                    <= s.m.pointer + o < r.m.cells.len() by {
                    if o != here {
                        assert(net_upto(body, m - 1, o) != 0);
                    }
                }
            },
            Op::Move(d) => {
                lemma_move_ran(p, u, lim, d);
                lemma_step_move(p, u, lim, d);
                lemma_shift_stretched(u.m, d as int, lim.cap);
                lemma_descends_trans(
                    s.m.cells.len() as int,
                    u.m.cells.len() as int,
                    r.m.cells.len() as int,
                );
                crate::agree::lemma_descends_le(u.m.cells.len() as int, r.m.cells.len() as int);
                assert forall|i: int| #[trigger] cell_at(r.m, i) == wrap(
                    cell_at(s.m, i) + net_upto(body, m as int, i - s.m.pointer),
                ) by {
                    assert(cell_at(u.m, i) == cell_at(r.m, i));
                    assert(cell_at(u.m, i) == wrap(
                        cell_at(s.m, i) + net_upto(body, m - 1, i - s.m.pointer),
                    ));
                }
                assert forall|o: int| #[trigger] net_upto(body, m as int, o) != 0 implies 0
                    <= s.m.pointer + o < r.m.cells.len() by {
                    assert(net_upto(body, m - 1, o) != 0);
                }
            },
            _ => {},
        }
    }
}

/// Whether `now` is what `start` has come to after a linear loop with the
/// body `body` that was entered with `c` under the pointer: every cell
/// changed by `c` times what one pass adds at its offset.
pub open spec fn looped(start: Machine, body: Seq<Op>, c: int, now: Machine) -> bool {
    &&& roomier(start, now)
    &&& now.pointer == start.pointer
    &&& forall|i: int|
        #[trigger] cell_at(now, i) == wrap(cell_at(start, i) + c * net(body, i - start.pointer))
    &&& forall|o: int|
        c > 0 && #[trigger] net(body, o) != 0 ==> 0 <= start.pointer + o < now.cells.len()
}

/// Adding once and then `c - 1` times is adding `c` times.
proof fn lemma_wrap_times(x: int, c: int, nn: int)
    ensures
        wrap(wrap(x + nn) + (c - 1) * nn) == wrap(x + c * nn),
{
    assert((c - 1) * nn + nn == c * nn) by (nonlinear_arith);
    lemma_wrap_twice(x, nn, (c - 1) * nn);
}

/// A loop that is not entered leaves the machine as it is.
proof fn lemma_looped_zero(start: Machine, body: Seq<Op>)
    requires
        start.wf(),
    ensures
        looped(start, body, 0, start),
{
    assert forall|i: int| #[trigger] cell_at(start, i) == wrap(
        cell_at(start, i) + 0 * net(body, i - start.pointer),
    ) by {
        assert(0 * net(body, i - start.pointer) == 0) by (nonlinear_arith);
    }
}

/// One pass through a body that ends where it began is one turn of the loop.
proof fn lemma_looped_once(start: Machine, body: Seq<Op>, mid: Machine)
    requires
        passed(start, body, body.len() as int, mid),
        offset_at(body, body.len() as int) == 0,
    ensures
        looped(start, body, 1, mid),
        mid.cell() == wrap(start.cell() + net(body, 0)),
{
    assert forall|i: int| #[trigger] cell_at(mid, i) == wrap(
        cell_at(start, i) + 1 * net(body, i - start.pointer),
    ) by {
        assert(1 * net(body, i - start.pointer) == net(body, i - start.pointer)) by (nonlinear_arith);
    }
    assert(cell_at(mid, start.pointer) == wrap(
        cell_at(start, start.pointer) + net(body, start.pointer - start.pointer),
    ));
}

/// One turn and then `c - 1` turns are `c` turns.
proof fn lemma_looped_more(start: Machine, body: Seq<Op>, mid: Machine, c: int, end: Machine)
    requires
        c >= 2,
        looped(start, body, 1, mid),
        looped(mid, body, c - 1, end),
    ensures
        looped(start, body, c, end),
{
    lemma_descends_trans(
        start.cells.len() as int,
        mid.cells.len() as int,
        end.cells.len() as int,
    );
    crate::agree::lemma_descends_le(mid.cells.len() as int, end.cells.len() as int);
    assert forall|i: int| #[trigger] cell_at(end, i) == wrap(
        cell_at(start, i) + c * net(body, i - start.pointer),
    ) by {
        let nn = net(body, i - start.pointer);
        assert(cell_at(mid, i) == wrap(cell_at(start, i) + 1 * nn));
        assert(1 * nn == nn) by (nonlinear_arith);
        assert(cell_at(end, i) == wrap(cell_at(mid, i) + (c - 1) * net(body, i - mid.pointer)));
        lemma_wrap_times(cell_at(start, i) as int, c, nn);
    }
}

/// One turn of a linear loop that is entered: from its `Jz` through its body
/// and over its `Jnz`.
proof fn lemma_loop_turn(p: Seq<Op>, s: State, lim: Limits, n: nat) -> (k: nat)
    requires
        !lim.tracing,
        p.len() <= usize::MAX,
        is_linear_loop(p, s.ip),
        s.m.wf(),
        s.m.cells.len() <= lim.cap <= usize::MAX,
        s.m.cell() != 0,
        run_n(p, s, lim, n).1 is Done,
    ensures
        2 <= k < n,
        run_n(p, s, lim, k).1 is Running,
        run_n(p, s, lim, k).0.ip == if s.m.cell() == 1 {
            p[s.ip]->Jz_0 + 1
        } else {
            s.ip
        },
        run_n(p, s, lim, k).0.steps == s.steps + k,
        run_n(p, s, lim, k).0.input == s.input,
        run_n(p, s, lim, k).0.output == s.output,
        run_n(p, s, lim, k).0.trace == s.trace,
        run_n(p, s, lim, k).0.m.cells.len() <= lim.cap,
        run_n(p, s, lim, k).0.m.cell() == s.m.cell() - 1,
        looped(s.m, loop_body(p, s.ip), 1, run_n(p, s, lim, k).0.m),
        run_n(p, run_n(p, s, lim, k).0, lim, (n - k) as nat) == run_n(p, s, lim, n),
        may_step(lim, s.steps + k - 1),
{
    let a = s.ip;
    let t = p[a]->Jz_0;
    let body = loop_body(p, a);
    lemma_first_step(p, s, lim, n);
    lemma_step_allowed(p, s, lim);
    lemma_step_jz(p, s, lim, t);
    let s1 = step(p, s, lim).0;
    let b = (t - a - 1) as nat;
    assert(flat(p, a + 1, t as int)) by {
        assert forall|x: int| a + 1 <= x < t implies jump_step(#[trigger] p[x]) == 0 by {
            assert(body[x - a - 1] == p[x]);
        }
    }
    assert forall|x: int| a < x < t implies #[trigger] p[x] is Add || p[x] is Move by {
        assert(body[x - a - 1] == p[x]);
    }
    lemma_run_through(p, s1, lim, (n - 1) as nat, b);
    lemma_body_pass(p, s1, lim, a, t as int, b);
    let u = run_n(p, s1, lim, b).0;
    assert(p.subrange(a + 1, t as int) == body);
    lemma_looped_once(s.m, body, u.m);
    lemma_first_step(p, u, lim, (n - 1 - b) as nat);
    lemma_step_allowed(p, u, lim);
    lemma_step_jnz(p, u, lim, a as usize);
    lemma_run_split(p, s, lim, 1, b);
    lemma_run_split(p, s, lim, 1 + b, 1);
    lemma_run_one(p, u, lim);
    1 + b + 1
}

/// A linear loop, run from its `Jz` to behind its `Jnz`.
pub proof fn lemma_linear_loop_run(p: Seq<Op>, s: State, lim: Limits, n: nat, c: nat) -> (k: nat)
    requires
        !lim.tracing,
        p.len() <= usize::MAX,
        is_linear_loop(p, s.ip),
        s.m.wf(),
        s.m.cells.len() <= lim.cap <= usize::MAX,
        s.m.cell() == c,
        run_n(p, s, lim, n).1 is Done,
    ensures
        1 <= k < n,
        run_n(p, s, lim, k).1 is Running,
        run_n(p, s, lim, k).0.ip == p[s.ip]->Jz_0 + 1,
        run_n(p, s, lim, k).0.steps == s.steps + k,
        run_n(p, s, lim, k).0.input == s.input,
        run_n(p, s, lim, k).0.output == s.output,
        run_n(p, s, lim, k).0.trace == s.trace,
        run_n(p, s, lim, k).0.m.cells.len() <= lim.cap,
        looped(s.m, loop_body(p, s.ip), c as int, run_n(p, s, lim, k).0.m),
        run_n(p, run_n(p, s, lim, k).0, lim, (n - k) as nat) == run_n(p, s, lim, n),
        may_step(lim, s.steps + k - 1),
    decreases c,
{
    let a = s.ip;
    let t = p[a]->Jz_0;
    let body = loop_body(p, a);
    if c == 0 {
        lemma_first_step(p, s, lim, n);
        lemma_step_allowed(p, s, lim);
        lemma_step_jz(p, s, lim, t);
        lemma_looped_zero(s.m, body);
        1
    } else {
        let k1 = lemma_loop_turn(p, s, lim, n);
        let w = run_n(p, s, lim, k1).0;
        if c == 1 {
            k1
        } else {
            let k2 = lemma_linear_loop_run(p, w, lim, (n - k1) as nat, (c - 1) as nat);
            let r = run_n(p, w, lim, k2).0;
            lemma_run_split(p, s, lim, k1, k2);
            lemma_looped_more(s.m, body, w.m, c as int, r.m);
            k1 + k2
        }
    }
}

/// Where something was added at an offset, the pointer stood at that offset.
pub proof fn lemma_net_visited(body: Seq<Op>, m: int, o: int) -> (k: int)
    requires
        0 <= m <= body.len(),
        net_upto(body, m, o) != 0,
    ensures
        0 <= k < m,
        offset_at(body, k) == o,
    decreases m,
{
    if body[m - 1] is Add && offset_at(body, m - 1) == o {
        m - 1
    } else {
        lemma_net_visited(body, m - 1, o)
    }
}

/// The first edits of a list are applied whatever follows them.
proof fn lemma_edits_prefix(
    m: Machine,
    v: u8,
    edits: Seq<(i32, i32)>,
    more: Seq<(i32, i32)>,
    k: int,
    cap: int,
)
    requires
        0 <= k <= edits.len(),
    ensures
        apply_edits(m, v, edits + more, k, cap) == apply_edits(m, v, edits, k, cap),
    decreases k,
{
    if k > 0 {
        lemma_edits_prefix(m, v, edits, more, k - 1, cap);
        assert((edits + more)[k - 1] == edits[k - 1]);
    }
}

/// Whether `g` is `start` with the edits for the offsets from `lo` up to `hi`
/// applied: each cell at such an offset changed by `v` times what one pass of
/// the body adds there, but for the cell under the pointer.
pub open spec fn edited(start: Machine, body: Seq<Op>, v: int, lo: int, hi: int, g: Machine) -> bool {
    &&& g.wf()
    &&& g.pointer == start.pointer
    &&& forall|i: int|
        #[trigger] cell_at(g, i) == if lo <= i - start.pointer < hi && i != start.pointer {
            wrap(cell_at(start, i) + net(body, i - start.pointer) * v)
        } else {
            cell_at(start, i)
        }
}

/// The edits of a body, applied: no offset is out of reach where the loop
/// itself reached it.
pub proof fn lemma_edits_applied(
    start: Machine,
    body: Seq<Op>,
    v: u8,
    lo: int,
    hi: int,
    room_len: int,
    cap: int,
)
    requires
        i32::MIN <= lo <= hi <= i32::MAX + 1,
        start.wf(),
        descends(start.cells.len() as int, room_len),
        room_len <= cap <= usize::MAX,
        forall|o: int|
            o != 0 && #[trigger] net(body, o) != 0 ==> 0 <= start.pointer + o < room_len
                && i32::MIN <= net(body, o) <= i32::MAX,
    ensures
        apply_edits(start, v, edits_in(body, lo, hi), edits_in(body, lo, hi).len() as int, cap).1
            is None,
        edited(
            start,
            body,
            v as int,
            lo,
            hi,
            apply_edits(
                start,
                v,
                edits_in(body, lo, hi),
                edits_in(body, lo, hi).len() as int,
                cap,
            ).0,
        ),
        descends(
            apply_edits(
                start,
                v,
                edits_in(body, lo, hi),
                edits_in(body, lo, hi).len() as int,
                cap,
            ).0.cells.len() as int,
            room_len,
        ),
    decreases hi - lo,
{
    let e = edits_in(body, lo, hi);
    if hi <= lo {
        assert forall|i: int| #[trigger] cell_at(start, i) == cell_at(start, i) by {}
    } else {
        let rest = edits_in(body, lo, hi - 1);
        lemma_edits_applied(start, body, v, lo, hi - 1, room_len, cap);
        let g = apply_edits(start, v, rest, rest.len() as int, cap).0;
        let o = hi - 1;
        if o != 0 && net(body, o) != 0 {
            let edit = (o as i32, net(body, o) as i32);
            assert(e =~= rest + seq![edit]);
            lemma_edits_prefix(start, v, rest, seq![edit], rest.len() as int, cap);
            assert(e[e.len() - 1] == edit);
            lemma_reach_into(g, room_len, o, cap);
            let h = reach(g, o, cap)->Ok_0.0;
            let target = start.pointer + o;
            let done = apply_edits(start, v, e, e.len() as int, cap).0;
            assert(done.cells == h.cells.update(target, wrap(h.cells[target] + edit.1 * v)));
            assert forall|i: int|
                #[trigger] cell_at(done, i) == if lo <= i - start.pointer < hi && i
                    != start.pointer {
                    wrap(cell_at(start, i) + net(body, i - start.pointer) * v)
                } else {
                    cell_at(start, i)
                } by {
                assert(cell_at(h, i) == cell_at(g, i));
                if i == target {
                    assert(cell_at(g, i) == cell_at(start, i));
                }
            }
        } else {
            assert forall|i: int|
                #[trigger] cell_at(g, i) == if lo <= i - start.pointer < hi && i != start.pointer {
                    wrap(cell_at(start, i) + net(body, i - start.pointer) * v)
                } else {
                    cell_at(start, i)
                } by {
                if i - start.pointer == o && i != start.pointer {
                    assert(net(body, o) * v == 0) by (nonlinear_arith)
                        requires
                            net(body, o) == 0,
                    ;
                }
            }
        }
    }
}

/// `AddMul` with the edits of a linear loop does what the loop does, on a
/// tape that is no longer.
pub proof fn lemma_addmul_lean(start: Machine, p: Seq<Op>, a: int, end: Machine, cap: int)
    requires
        is_linear_loop(p, a),
        looped(start, loop_body(p, a), start.cell() as int, end),
        end.cells.len() <= cap <= usize::MAX,
    ensures
        add_mul(start, edits_of(loop_body(p, a)), cap).1 is None,
        lean(add_mul(start, edits_of(loop_body(p, a)), cap).0, end),
{
    let body = loop_body(p, a);
    let c = start.cell();
    let pp = start.pointer;
    if c == 0 {
        assert forall|i: int| cell_at(start, i) == #[trigger] cell_at(end, i) by {
            assert(0 * net(body, i - pp) == 0) by (nonlinear_arith);
        }
    } else {
        lemma_edits_applied(start, body, c, i32::MIN as int, i32::MAX + 1, end.cells.len() as int, cap);
        let e = edits_of(body);
        let g = apply_edits(start, c, e, e.len() as int, cap).0;
        let done = add_mul(start, e, cap).0;
        assert(done == g.set_cell(0u8));
        assert forall|i: int| cell_at(done, i) == #[trigger] cell_at(end, i) by {
            let nn = net(body, i - pp);
            assert(cell_at(end, i) == wrap(cell_at(start, i) + c * nn));
            if i == pp {
                assert(c * nn == -c) by (nonlinear_arith)
                    requires
                        nn == -1,
                ;
            } else if i32::MIN <= i - pp <= i32::MAX {
                assert(cell_at(g, i) == wrap(cell_at(start, i) + nn * c));
                assert(nn * c == c * nn) by (nonlinear_arith);
            } else {
                if nn != 0 {
                    let k = lemma_net_visited(body, body.len() as int, i - pp);
                    assert(i32::MIN <= offset_at(body, k) <= i32::MAX);
                }
                assert(c * nn == 0) by (nonlinear_arith)
                    requires
                        nn == 0,
                ;
                assert(cell_at(g, i) == cell_at(start, i));
            }
        }
    }
}

/// Whether the instruction `op`, on the machine `start`, works without fault
/// and comes to what `end` holds, on a tape that is no longer.
pub open spec fn worked(op: Op, start: Machine, cap: int, end: Machine) -> bool {
    match op {
        Op::AddMul(edits) => add_mul(start, edits, cap).1 is None && lean(
            add_mul(start, edits, cap).0,
            end,
        ),
        Op::AddTo(o, sign) => add_to(start, o as int, sign as int, cap).1 is None && lean(
            add_to(start, o as int, sign as int, cap).0,
            end,
        ),
        Op::Scan(d) => scan(start, d as int, cap).1 is None && lean(
            scan(start, d as int, cap).0,
            end,
        ),
        Op::SetZero => lean(start.set_cell(0u8), end),
        _ => false,
    }
}

/// Whether the run of `p` from `s`, which stands in front of a loop, comes
/// out of the loop at `exit` after `k` steps, having done what the one
/// instruction `op` does.
pub open spec fn loop_done(p: Seq<Op>, s: State, lim: Limits, n: nat, k: nat, exit: int, op: Op) -> bool {
    let r = run_n(p, s, lim, k);
    &&& 1 <= k < n
    &&& r.1 is Running
    &&& r.0.ip == exit
    &&& r.0.steps == s.steps + k
    &&& r.0.input == s.input
    &&& r.0.output == s.output
    &&& r.0.trace == s.trace
    &&& r.0.m.wf()
    &&& r.0.m.cells.len() <= lim.cap
    &&& run_n(p, r.0, lim, (n - k) as nat) == run_n(p, s, lim, n)
    &&& may_step(lim, s.steps + k - 1)
    &&& worked(op, s.m, lim.cap, r.0.m)
}

/// The general linear loop does what `AddMul` with its edits does.
pub proof fn lemma_linear_loop_done(p: Seq<Op>, s: State, lim: Limits, n: nat) -> (k: nat)
    requires
        !lim.tracing,
        p.len() <= usize::MAX,
        is_linear_loop(p, s.ip),
        s.m.wf(),
        s.m.cells.len() <= lim.cap <= usize::MAX,
        run_n(p, s, lim, n).1 is Done,
    ensures
        loop_done(p, s, lim, n, k, p[s.ip]->Jz_0 + 1, Op::AddMul(edits_of(loop_body(p, s.ip)))),
{
    let k = lemma_linear_loop_run(p, s, lim, n, s.m.cell() as nat);
    lemma_addmul_lean(s.m, p, s.ip, run_n(p, s, lim, k).0.m, lim.cap);
    k
}

/// What one pass of the body of a transfer loop adds where.
proof fn lemma_addto_net(p: Seq<Op>, a: int)
    requires
        addto_at(p, a) is Some,
    ensures
        is_linear_loop(p, a),
        forall|x: int|
            #[trigger] net(loop_body(p, a), x) == if x == 0 {
                -1int
            } else if x == p[a + 2]->Move_0 {
                p[a + 3]->Add_0 as int
            } else {
                0
            },
{
    let body = loop_body(p, a);
    let o = p[a + 2]->Move_0;
    assert(body.len() == 4);
    assert(body[0] == p[a + 1] && body[1] == p[a + 2] && body[2] == p[a + 3] && body[3] == p[a + 4]);
    reveal_with_fuel(offset_at, 6);
    reveal_with_fuel(net_upto, 6);
    assert(offset_at(body, 0) == 0);
    assert(offset_at(body, 1) == 0);
    assert(offset_at(body, 2) == o);
    assert(offset_at(body, 3) == o);
    assert(offset_at(body, 4) == 0);
    assert forall|x: int|
        #[trigger] net(body, x) == if x == 0 {
            -1int
        } else if x == o {
            p[a + 3]->Add_0 as int
        } else {
            0
        } by {
        assert(net_upto(body, 0, x) == 0);
        assert(net_upto(body, 1, x) == if x == 0 {
            -1int
        } else {
            0
        });
        assert(net_upto(body, 2, x) == net_upto(body, 1, x));
        assert(net_upto(body, 3, x) == net_upto(body, 2, x) + if x == o {
            p[a + 3]->Add_0 as int
        } else {
            0
        });
        assert(net_upto(body, 4, x) == net_upto(body, 3, x));
    }
    assert forall|k: int| 0 <= k <= body.len() implies i32::MIN <= #[trigger] offset_at(body, k)
        <= i32::MAX by {
        if k == 0 {
        } else if k == 1 {
        } else if k == 2 {
        } else if k == 3 {
        } else {
        }
    }
}

/// The transfer loop does what `AddTo` does.
pub proof fn lemma_addto_done(p: Seq<Op>, s: State, lim: Limits, n: nat) -> (k: nat)
    requires
        !lim.tracing,
        p.len() <= usize::MAX,
        addto_at(p, s.ip) is Some,
        s.m.wf(),
        s.m.cells.len() <= lim.cap <= usize::MAX,
        run_n(p, s, lim, n).1 is Done,
    ensures
        loop_done(
            p,
            s,
            lim,
            n,
            k,
            s.ip + 6,
            Op::AddTo(p[s.ip + 2]->Move_0, p[s.ip + 3]->Add_0),
        ),
{
    let a = s.ip;
    let body = loop_body(p, a);
    let o = p[a + 2]->Move_0;
    let sign = p[a + 3]->Add_0;
    lemma_addto_net(p, a);
    let k = lemma_linear_loop_run(p, s, lim, n, s.m.cell() as nat);
    let end = run_n(p, s, lim, k).0.m;
    let c = s.m.cell();
    let pp = s.m.pointer;
    if c == 0 {
        assert forall|i: int| cell_at(s.m, i) == #[trigger] cell_at(end, i) by {
            assert(0 * net(body, i - pp) == 0) by (nonlinear_arith);
        }
    } else {
        assert(net(body, o as int) != 0);
        lemma_reach_into(s.m, end.cells.len() as int, o as int, lim.cap);
        let done = add_to(s.m, o as int, sign as int, lim.cap).0;
        let g = reach(s.m, o as int, lim.cap)->Ok_0.0;
        assert forall|i: int| cell_at(done, i) == #[trigger] cell_at(end, i) by {
            let nn = net(body, i - pp);
            assert(cell_at(end, i) == wrap(cell_at(s.m, i) + c * nn));
            assert(cell_at(g, i) == cell_at(s.m, i));
            if i == pp {
                assert(c * nn == -c) by (nonlinear_arith)
                    requires
                        nn == -1,
                ;
            } else if i == pp + o {
                if sign == 1 {
                    assert(c * nn == c) by (nonlinear_arith)
                        requires
                            nn == 1,
                    ;
                } else {
                    assert(c * nn == -c) by (nonlinear_arith)
                        requires
                            nn == -1,
                    ;
                }
            } else {
                assert(c * nn == 0) by (nonlinear_arith)
                    requires
                        nn == 0,
                ;
            }
        }
    }
    k
}

/// A machine is as lean as itself.
proof fn lemma_lean_self(m: Machine)
    requires
        m.wf(),
    ensures
        lean(m, m),
{
    assert forall|i: int| cell_at(m, i) == #[trigger] cell_at(m, i) by {}
}

/// One turn of a clearing loop that is entered.
proof fn lemma_clear_turn(p: Seq<Op>, s: State, lim: Limits, n: nat)
    requires
        !lim.tracing,
        p.len() <= usize::MAX,
        clear_at(p, s.ip),
        s.m.wf(),
        s.m.cell() != 0,
        run_n(p, s, lim, n).1 is Done,
    ensures
        3 < n,
        run_n(p, s, lim, 3).1 is Running,
        run_n(p, s, lim, 3).0 == (State {
            m: s.m.set_cell(wrap(s.m.cell() + p[s.ip + 1]->Add_0)),
            ip: if wrap(s.m.cell() + p[s.ip + 1]->Add_0) == 0 {
                s.ip + 3
            } else {
                s.ip
            },
            steps: s.steps + 3,
            ..s
        }),
        run_n(p, run_n(p, s, lim, 3).0, lim, (n - 3) as nat) == run_n(p, s, lim, n),
        may_step(lim, s.steps + 2),
{
    let a = s.ip;
    let d = p[a + 1]->Add_0;
    lemma_first_step(p, s, lim, n);
    lemma_step_allowed(p, s, lim);
    lemma_step_jz(p, s, lim, (a + 2) as usize);
    let s1 = step(p, s, lim).0;
    lemma_first_step(p, s1, lim, (n - 1) as nat);
    lemma_step_allowed(p, s1, lim);
    lemma_step_add(p, s1, lim, d);
    let s2 = step(p, s1, lim).0;
    lemma_first_step(p, s2, lim, (n - 2) as nat);
    lemma_step_allowed(p, s2, lim);
    lemma_step_jnz(p, s2, lim, a as usize);
    lemma_run_split(p, s, lim, 1, 1);
    lemma_run_split(p, s, lim, 2, 1);
    lemma_run_one(p, s1, lim);
    lemma_run_one(p, s2, lim);
}

/// The clearing loop, run from its `Jz` to behind its `Jnz`: the cell under
/// the pointer is zero, and nothing else has changed.
proof fn lemma_clear_run(p: Seq<Op>, s: State, lim: Limits, n: nat) -> (k: nat)
    requires
        !lim.tracing,
        p.len() <= usize::MAX,
        clear_at(p, s.ip),
        s.m.wf(),
        run_n(p, s, lim, n).1 is Done,
    ensures
        1 <= k < n,
        run_n(p, s, lim, k).1 is Running,
        run_n(p, s, lim, k).0.ip == s.ip + 3,
        run_n(p, s, lim, k).0.steps == s.steps + k,
        run_n(p, s, lim, k).0.input == s.input,
        run_n(p, s, lim, k).0.output == s.output,
        run_n(p, s, lim, k).0.trace == s.trace,
        run_n(p, s, lim, k).0.m.pointer == s.m.pointer,
        run_n(p, s, lim, k).0.m.cells == s.m.cells.update(s.m.pointer, 0u8),
        run_n(p, run_n(p, s, lim, k).0, lim, (n - k) as nat) == run_n(p, s, lim, n),
        may_step(lim, s.steps + k - 1),
    decreases
        if p[s.ip + 1]->Add_0 == -1 {
            s.m.cell() as int
        } else {
            256 - s.m.cell()
        },
{
    let a = s.ip;
    if s.m.cell() == 0 {
        lemma_first_step(p, s, lim, n);
        lemma_step_allowed(p, s, lim);
        lemma_step_jz(p, s, lim, (a + 2) as usize);
        assert(s.m.cells.update(s.m.pointer, 0u8) =~= s.m.cells);
        1
    } else {
        lemma_clear_turn(p, s, lim, n);
        let s3 = run_n(p, s, lim, 3).0;
        if s3.m.cell() == 0 {
            3
        } else {
            let k2 = lemma_clear_run(p, s3, lim, (n - 3) as nat);
            lemma_run_split(p, s, lim, 3, k2);
            assert(s3.m.cells.update(s.m.pointer, 0u8) =~= s.m.cells.update(s.m.pointer, 0u8));
            3 + k2
        }
    }
}

/// The clearing loop does what `SetZero` does.
pub proof fn lemma_clear_done(p: Seq<Op>, s: State, lim: Limits, n: nat) -> (k: nat)
    requires
        !lim.tracing,
        p.len() <= usize::MAX,
        clear_at(p, s.ip),
        s.m.wf(),
        s.m.cells.len() <= lim.cap <= usize::MAX,
        run_n(p, s, lim, n).1 is Done,
    ensures
        loop_done(p, s, lim, n, k, s.ip + 3, Op::SetZero),
{
    let k = lemma_clear_run(p, s, lim, n);
    assert(run_n(p, s, lim, k).0.m == s.m.set_cell(0u8));
    lemma_lean_self(s.m.set_cell(0u8));
    k
}

/// A `Move` that left the run running moved the pointer, on a tape within
/// the cap.
proof fn lemma_move_done(p: Seq<Op>, s: State, lim: Limits, d: i32)
    requires
        !lim.tracing,
        0 <= s.ip < p.len(),
        p[s.ip] == Op::Move(d),
        step(p, s, lim).1 is Running,
        s.m.wf(),
        s.m.cells.len() <= lim.cap <= usize::MAX,
    ensures
        shift(s.m, d as int, lim.cap) is Ok,
        shift(s.m, d as int, lim.cap)->Ok_0.wf(),
        shift(s.m, d as int, lim.cap)->Ok_0.cells.len() <= lim.cap,
        shift(s.m, d as int, lim.cap)->Ok_0.pointer == s.m.pointer + d,
        d < 0 ==> shift(s.m, d as int, lim.cap)->Ok_0.cells == s.m.cells,
{
    lemma_move_ran(p, s, lim, d);
    lemma_shift_stretched(s.m, d as int, lim.cap);
}

/// The scan loop, run from its `Jz` to behind its `Jnz`.
proof fn lemma_scan_run(p: Seq<Op>, s: State, lim: Limits, n: nat) -> (k: nat)
    requires
        !lim.tracing,
        p.len() <= usize::MAX,
        scan_at(p, s.ip) is Some,
        s.m.wf(),
        s.m.cells.len() <= lim.cap <= usize::MAX,
        run_n(p, s, lim, n).1 is Done,
    ensures
        1 <= k < n,
        run_n(p, s, lim, k).1 is Running,
        run_n(p, s, lim, k).0.ip == s.ip + 3,
        run_n(p, s, lim, k).0.steps == s.steps + k,
        run_n(p, s, lim, k).0.input == s.input,
        run_n(p, s, lim, k).0.output == s.output,
        run_n(p, s, lim, k).0.trace == s.trace,
        run_n(p, s, lim, k).0.m.wf(),
        run_n(p, s, lim, k).0.m.cells.len() <= lim.cap,
        scan(s.m, p[s.ip + 1]->Move_0 as int, lim.cap) == (
            run_n(p, s, lim, k).0.m,
            None::<Fault>,
        ),
        run_n(p, run_n(p, s, lim, k).0, lim, (n - k) as nat) == run_n(p, s, lim, n),
        may_step(lim, s.steps + k - 1),
    decreases
        if p[s.ip + 1]->Move_0 > 0 {
            usize::MAX - s.m.pointer
        } else {
            s.m.pointer
        },
{
    let a = s.ip;
    let d = p[a + 1]->Move_0;
    lemma_first_step(p, s, lim, n);
    lemma_step_allowed(p, s, lim);
    lemma_step_jz(p, s, lim, (a + 2) as usize);
    let s1 = step(p, s, lim).0;
    if s.m.cell() == 0 {
        1
    } else {
        lemma_first_step(p, s1, lim, (n - 1) as nat);
        lemma_step_allowed(p, s1, lim);
        lemma_move_done(p, s1, lim, d);
        lemma_step_move(p, s1, lim, d);
        let s2 = step(p, s1, lim).0;
        lemma_first_step(p, s2, lim, (n - 2) as nat);
        lemma_step_allowed(p, s2, lim);
        lemma_step_jnz(p, s2, lim, a as usize);
        let s3 = step(p, s2, lim).0;
        lemma_run_split(p, s, lim, 1, 1);
        lemma_run_split(p, s, lim, 2, 1);
        lemma_run_one(p, s1, lim);
        lemma_run_one(p, s2, lim);
        assert(run_n(p, s, lim, 3) == (s3, Status::Running));
        assert(scan(s.m, d as int, lim.cap) == scan(s2.m, d as int, lim.cap));
        if s2.m.cell() == 0 {
            3
        } else {
            let k2 = lemma_scan_run(p, s3, lim, (n - 3) as nat);
            lemma_run_split(p, s, lim, 3, k2);
            3 + k2
        }
    }
}

/// The scan loop does what `Scan` does.
pub proof fn lemma_scan_done(p: Seq<Op>, s: State, lim: Limits, n: nat) -> (k: nat)
    requires
        !lim.tracing,
        p.len() <= usize::MAX,
        scan_at(p, s.ip) is Some,
        s.m.wf(),
        s.m.cells.len() <= lim.cap <= usize::MAX,
        run_n(p, s, lim, n).1 is Done,
    ensures
        loop_done(p, s, lim, n, k, s.ip + 3, Op::Scan(p[s.ip + 1]->Move_0)),
{
    let k = lemma_scan_run(p, s, lim, n);
    lemma_lean_self(run_n(p, s, lim, k).0.m);
    k
}

/// An instruction that worked on the fuller machine works on the leaner one,
/// with the same result.
pub proof fn lemma_worked_step(
    qq: Seq<Op>,
    sq: State,
    sp: State,
    lim: Limits,
    op: Op,
    end: Machine,
)
    requires
        !lim.tracing,
        follows(sq, sp, lim.cap),
        worked(op, sp.m, lim.cap, end),
        0 <= sq.ip < qq.len(),
        qq[sq.ip] == op,
        may_step(lim, sq.steps),
    ensures
        step(qq, sq, lim).1 is Running,
        step(qq, sq, lim).0.ip == sq.ip + 1,
        step(qq, sq, lim).0.steps == sq.steps + 1,
        step(qq, sq, lim).0.input == sq.input,
        step(qq, sq, lim).0.output == sq.output,
        step(qq, sq, lim).0.trace == sq.trace,
        lean(step(qq, sq, lim).0.m, end),
{
    let pc = State { steps: sp.steps + 1, ..sp };
    let qc = State { steps: sq.steps + 1, ..sq };
    assert(dispatch(qq, pc, op, lim.cap).1 is Running && lean(
        dispatch(qq, pc, op, lim.cap).0.m,
        end,
    ) && dispatch(qq, pc, op, lim.cap).0.input == sp.input && dispatch(
        qq,
        pc,
        op,
        lim.cap,
    ).0.output == sp.output && dispatch(qq, pc, op, lim.cap).0.trace == sp.trace) by {
        reveal(dispatch);
    }
    lemma_dispatch_follows(qq, qq, pc, qc, op, lim.cap);
    lemma_lean_trans(
        dispatch(qq, qc, op, lim.cap).0.m,
        dispatch(qq, pc, op, lim.cap).0.m,
        end,
    );
}

} // verus!
