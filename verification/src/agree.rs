//! When two machines hold the same tape: equal cell for cell, a cell beyond
//! the end counting as zero. A tape that was grown less holds the same as one
//! that was grown more, and can do whatever the longer one can.

use crate::ir::Op;
use crate::machine::{
    apply_edits, dispatch, grown_len, lemma_grown_len, next_byte, reach, room, scan_left,
    scan_right, shift, wrap, Machine, State,
};
use vstd::prelude::*;

verus! {

/// The cell at index `i`; zero beyond the end of the tape.
pub open spec fn cell_at(m: Machine, i: int) -> u8 {
    if 0 <= i < m.cells.len() {
        m.cells[i]
    } else {
        0u8
    }
}

/// Whether a tape of length `len` comes to the length `to` by doubling.
pub open spec fn descends(len: int, to: int) -> bool
    decreases
        if to >= len {
            to - len
        } else {
            0
        },
{
    len == to || (1 <= len < to && descends(2 * len, to))
}

/// Whether the machine `q` holds what `p` holds, on a tape that `p`'s tape
/// could have been grown from.
pub open spec fn lean(q: Machine, p: Machine) -> bool {
    &&& p.wf()
    &&& q.wf()
    &&& q.pointer == p.pointer
    &&& descends(q.cells.len() as int, p.cells.len() as int)
    &&& forall|i: int| cell_at(q, i) == #[trigger] cell_at(p, i)
}

/// Doubling leads to the length that growing gives.
pub proof fn lemma_descends_grown(len: int, required: int)
    requires
        1 <= len,
    ensures
        descends(len, grown_len(len, required)),
    decreases
        if required >= len {
            required - len + 1
        } else {
            0
        },
{
    if len <= required {
        lemma_descends_grown(2 * len, required);
        lemma_grown_len(2 * len, required);
    }
}

/// A shorter tape grows no further than the tape that descends from it is
/// long already.
pub proof fn lemma_grown_within(len: int, to: int, required: int)
    requires
        1 <= len,
        descends(len, to),
        required < to,
    ensures
        grown_len(len, required) <= to,
        descends(grown_len(len, required), to),
    decreases
        if to >= len {
            to - len
        } else {
            0
        },
{
    if len <= required {
        lemma_grown_within(2 * len, to, required);
    }
}

/// Beyond the longer tape, both tapes grow to the same length.
pub proof fn lemma_grown_same(len: int, to: int, required: int)
    requires
        1 <= len,
        descends(len, to),
        required >= to,
    ensures
        grown_len(len, required) == grown_len(to, required),
    decreases
        if to >= len {
            to - len
        } else {
            0
        },
{
    if len != to {
        lemma_grown_same(2 * len, to, required);
    }
}

/// A length descends from itself.
pub proof fn lemma_descends_self(len: int)
    ensures
        descends(len, len),
{
}

/// Where the fuller machine reaches an offset, so does the leaner one, and
/// it stays the leaner one.
pub proof fn lemma_reach_lean(p: Machine, q: Machine, offset: int, cap: int)
    requires
        lean(q, p),
        p.cells.len() <= cap <= usize::MAX,
        reach(p, offset, cap) is Ok,
    ensures
        reach(q, offset, cap) is Ok,
        reach(q, offset, cap)->Ok_0.1 == reach(p, offset, cap)->Ok_0.1,
        lean(reach(q, offset, cap)->Ok_0.0, reach(p, offset, cap)->Ok_0.0),
        reach(p, offset, cap)->Ok_0.0.cells.len() <= cap,
        0 <= reach(p, offset, cap)->Ok_0.1 < reach(q, offset, cap)->Ok_0.0.cells.len(),
{
    let target = p.pointer + offset;
    let lp = p.cells.len() as int;
    let lq = q.cells.len() as int;
    if offset > 0 {
        lemma_grown_len(lp, target);
        lemma_grown_len(lq, target);
        let pg = reach(p, offset, cap)->Ok_0.0;
        if target < lp {
            lemma_grown_within(lq, lp, target);
        } else {
            lemma_grown_same(lq, lp, target);
            lemma_descends_self(grown_len(lp, target));
        }
        let qg = reach(q, offset, cap)->Ok_0.0;
        assert(pg.wf());
        assert(qg.wf());
        assert(descends(qg.cells.len() as int, pg.cells.len() as int));
        assert forall|i: int| cell_at(qg, i) == #[trigger] cell_at(pg, i) by {
            assert(cell_at(q, i) == cell_at(p, i));
        }
    }
}

/// Storing the same value at the same index keeps the leaner machine leaner.
pub proof fn lemma_update_lean(p: Machine, q: Machine, i: int, v: u8)
    requires
        lean(q, p),
        0 <= i < q.cells.len(),
    ensures
        lean(
            Machine { cells: q.cells.update(i, v), pointer: q.pointer },
            Machine { cells: p.cells.update(i, v), pointer: p.pointer },
        ),
        i < p.cells.len(),
        q.cells[i] == p.cells[i],
{
    let pu = Machine { cells: p.cells.update(i, v), pointer: p.pointer };
    let qu = Machine { cells: q.cells.update(i, v), pointer: q.pointer };
    assert(cell_at(q, i) == cell_at(p, i));
    assert forall|k: int| cell_at(qu, k) == #[trigger] cell_at(pu, k) by {
        assert(cell_at(q, k) == cell_at(p, k));
    }
}

/// Where the fuller machine moves its pointer, so does the leaner one.
pub proof fn lemma_shift_lean(p: Machine, q: Machine, delta: int, cap: int)
    requires
        lean(q, p),
        p.cells.len() <= cap <= usize::MAX,
        shift(p, delta, cap) is Ok,
    ensures
        shift(q, delta, cap) is Ok,
        lean(shift(q, delta, cap)->Ok_0, shift(p, delta, cap)->Ok_0),
        shift(p, delta, cap)->Ok_0.cells.len() <= cap,
        shift(p, delta, cap)->Ok_0.pointer == p.pointer + delta,
{
    lemma_reach_lean(p, q, delta, cap);
    let pg = reach(p, delta, cap)->Ok_0.0;
    let qg = reach(q, delta, cap)->Ok_0.0;
    let t = reach(p, delta, cap)->Ok_0.1;
    let ps = shift(p, delta, cap)->Ok_0;
    let qs = shift(q, delta, cap)->Ok_0;
    assert forall|i: int| cell_at(qs, i) == #[trigger] cell_at(ps, i) by {
        assert(cell_at(qg, i) == cell_at(pg, i));
    }
}

/// Where the fuller machine applies edits without fault, so does the leaner
/// one.
pub proof fn lemma_edits_lean(
    p: Machine,
    q: Machine,
    v: u8,
    edits: Seq<(i32, i32)>,
    k: int,
    cap: int,
)
    requires
        lean(q, p),
        p.cells.len() <= cap <= usize::MAX,
        0 <= k <= edits.len(),
        apply_edits(p, v, edits, k, cap).1 is None,
    ensures
        apply_edits(q, v, edits, k, cap).1 is None,
        lean(apply_edits(q, v, edits, k, cap).0, apply_edits(p, v, edits, k, cap).0),
        apply_edits(p, v, edits, k, cap).0.cells.len() <= cap,
    decreases k,
{
    if k > 0 {
        lemma_edits_lean(p, q, v, edits, k - 1, cap);
        let pg = apply_edits(p, v, edits, k - 1, cap).0;
        let qg = apply_edits(q, v, edits, k - 1, cap).0;
        let o = edits[k - 1].0 as int;
        lemma_reach_lean(pg, qg, o, cap);
        let ph = reach(pg, o, cap)->Ok_0.0;
        let qh = reach(qg, o, cap)->Ok_0.0;
        let t = reach(pg, o, cap)->Ok_0.1;
        lemma_update_lean(ph, qh, t, wrap(ph.cells[t] + edits[k - 1].1 * v));
    }
}

/// Where the fuller machine scans left without fault, so does the leaner one.
pub proof fn lemma_scan_left_lean(p: Machine, q: Machine)
    requires
        lean(q, p),
        scan_left(p).1 is None,
    ensures
        scan_left(q).1 is None,
        lean(scan_left(q).0, scan_left(p).0),
        scan_left(p).0.cells.len() == p.cells.len(),
    decreases p.pointer,
{
    assert(cell_at(q, q.pointer) == cell_at(p, p.pointer));
    if p.cell() != 0 && p.pointer > 0 {
        let pn = Machine { cells: p.cells, pointer: p.pointer - 1 };
        let qn = Machine { cells: q.cells, pointer: q.pointer - 1 };
        assert forall|i: int| cell_at(qn, i) == #[trigger] cell_at(pn, i) by {
            assert(cell_at(q, i) == cell_at(p, i));
        }
        lemma_scan_left_lean(pn, qn);
    }
}

/// Where the fuller machine scans right without fault, so does the leaner
/// one.
pub proof fn lemma_scan_right_lean(p: Machine, q: Machine, cap: int)
    requires
        lean(q, p),
        p.cells.len() <= cap <= usize::MAX,
        scan_right(p, cap).1 is None,
    ensures
        scan_right(q, cap).1 is None,
        lean(scan_right(q, cap).0, scan_right(p, cap).0),
        scan_right(p, cap).0.cells.len() <= cap,
    decreases usize::MAX - p.pointer,
{
    assert(cell_at(q, q.pointer) == cell_at(p, p.pointer));
    if p.cell() != 0 {
        lemma_shift_lean(p, q, 1, cap);
        lemma_scan_right_lean(shift(p, 1, cap)->Ok_0, shift(q, 1, cap)->Ok_0, cap);
    }
}

/// Whether the state `q` holds what `p` holds, on the leaner tape, and has
/// taken no more steps.
pub open spec fn follows(q: State, p: State, cap: int) -> bool {
    &&& lean(q.m, p.m)
    &&& p.m.cells.len() <= cap <= usize::MAX
    &&& q.input == p.input
    &&& q.output == p.output
    &&& q.trace == p.trace
    &&& 0 <= q.steps <= p.steps
}

/// An instruction that is no jump does to the leaner state what it does to
/// the fuller one.
pub proof fn lemma_dispatch_follows(
    pp: Seq<Op>,
    qq: Seq<Op>,
    p: State,
    q: State,
    op: Op,
    cap: int,
)
    requires
        follows(q, p, cap),
        !(op is Jz) && !(op is Jnz),
        dispatch(pp, p, op, cap).1 is Running,
    ensures
        dispatch(qq, q, op, cap).1 is Running,
        follows(dispatch(qq, q, op, cap).0, dispatch(pp, p, op, cap).0, cap),
        dispatch(pp, p, op, cap).0.ip == p.ip + 1,
        dispatch(qq, q, op, cap).0.ip == q.ip + 1,
        dispatch(pp, p, op, cap).0.steps == p.steps,
        dispatch(qq, q, op, cap).0.steps == q.steps,
{
    reveal(dispatch);
    assert(cell_at(q.m, q.m.pointer) == cell_at(p.m, p.m.pointer));
    match op {
        Op::Add(d) => {
            lemma_update_lean(p.m, q.m, p.m.pointer, wrap(p.m.cell() + d));
        },
        Op::Move(d) => {
            lemma_shift_lean(p.m, q.m, d as int, cap);
        },
        Op::AddTo(o, sign) => {
            if p.m.cell() != 0 {
                lemma_reach_lean(p.m, q.m, o as int, cap);
                let pg = reach(p.m, o as int, cap)->Ok_0.0;
                let qg = reach(q.m, o as int, cap)->Ok_0.0;
                let t = reach(p.m, o as int, cap)->Ok_0.1;
                let v = p.m.cell();
                let sum = if sign < 0 {
                    wrap(pg.cells[t] - v)
                } else {
                    wrap(pg.cells[t] + v)
                };
                lemma_update_lean(pg, qg, t, sum);
                lemma_update_lean(
                    Machine { cells: pg.cells.update(t, sum), pointer: pg.pointer },
                    Machine { cells: qg.cells.update(t, sum), pointer: qg.pointer },
                    p.m.pointer,
                    0u8,
                );
            }
        },
        Op::AddMul(edits) => {
            if p.m.cell() != 0 {
                lemma_edits_lean(p.m, q.m, p.m.cell(), edits, edits.len() as int, cap);
                let pg = apply_edits(p.m, p.m.cell(), edits, edits.len() as int, cap).0;
                let qg = apply_edits(q.m, p.m.cell(), edits, edits.len() as int, cap).0;
                lemma_update_lean(pg, qg, pg.pointer, 0u8);
            }
        },
        Op::Output => {},
        Op::Input => {
            lemma_update_lean(p.m, q.m, p.m.pointer, next_byte(p.input));
        },
        Op::SetZero => {
            lemma_update_lean(p.m, q.m, p.m.pointer, 0u8);
        },
        Op::Scan(dir) => {
            if dir > 0 {
                lemma_scan_right_lean(p.m, q.m, cap);
            } else if dir < 0 {
                lemma_scan_left_lean(p.m, q.m);
            }
        },
        _ => {},
    }
}

/// Doubling on from a doubled length is doubling.
pub proof fn lemma_descends_trans(a: int, b: int, c: int)
    requires
        descends(a, b),
        descends(b, c),
    ensures
        descends(a, c),
    decreases
        if b >= a {
            b - a
        } else {
            0
        },
{
    if a != b {
        lemma_descends_trans(2 * a, b, c);
        lemma_descends_le(2 * a, b);
        lemma_descends_le(b, c);
    }
}

/// Doubling never shortens.
pub proof fn lemma_descends_le(a: int, b: int)
    requires
        descends(a, b),
    ensures
        a <= b,
{
}

/// Whether the tape of `n` is the tape of `o`, grown or not: the pointers
/// may differ.
pub open spec fn stretched(o: Machine, n: Machine) -> bool {
    &&& o.wf()
    &&& n.wf()
    &&& descends(o.cells.len() as int, n.cells.len() as int)
    &&& forall|i: int| cell_at(o, i) == #[trigger] cell_at(n, i)
}

/// Moving the pointer changes no cell, and grows the tape at most.
pub proof fn lemma_shift_stretched(m: Machine, delta: int, cap: int)
    requires
        m.wf(),
        m.cells.len() <= cap <= usize::MAX,
        shift(m, delta, cap) is Ok,
    ensures
        stretched(m, shift(m, delta, cap)->Ok_0),
        shift(m, delta, cap)->Ok_0.pointer == m.pointer + delta,
        shift(m, delta, cap)->Ok_0.cells.len() <= cap,
{
    let n = shift(m, delta, cap)->Ok_0;
    let target = m.pointer + delta;
    if delta > 0 {
        lemma_grown_len(m.cells.len() as int, target);
        lemma_descends_grown(m.cells.len() as int, target);
    }
    assert forall|i: int| cell_at(m, i) == #[trigger] cell_at(n, i) by {}
}

/// The leaner machine moves its pointer to wherever the fuller tape has a
/// cell, and is then the leaner machine of the fuller tape with the pointer
/// there.
pub proof fn lemma_shift_into(q: Machine, n: Machine, delta: int, cap: int)
    requires
        stretched(q, n),
        n.cells.len() <= cap <= usize::MAX,
        0 <= q.pointer + delta < n.cells.len(),
    ensures
        shift(q, delta, cap) is Ok,
        stretched(shift(q, delta, cap)->Ok_0, n),
        shift(q, delta, cap)->Ok_0.pointer == q.pointer + delta,
{
    let target = q.pointer + delta;
    lemma_descends_le(q.cells.len() as int, n.cells.len() as int);
    if delta > 0 {
        lemma_grown_len(q.cells.len() as int, target);
        lemma_grown_within(q.cells.len() as int, n.cells.len() as int, target);
    }
    let r = shift(q, delta, cap)->Ok_0;
    assert forall|i: int| cell_at(r, i) == #[trigger] cell_at(n, i) by {
        assert(cell_at(q, i) == cell_at(n, i));
    }
}

/// Whether the tape of `n` has room for all that the tape of `o` has room
/// for: it is the tape of `o`, grown or not, whatever the cells hold.
pub open spec fn roomier(o: Machine, n: Machine) -> bool {
    &&& o.wf()
    &&& n.wf()
    &&& descends(o.cells.len() as int, n.cells.len() as int)
}

/// The machine reaches whatever index a roomier tape has, and changes no
/// cell in doing so.
pub proof fn lemma_reach_into(q: Machine, room_len: int, offset: int, cap: int)
    requires
        q.wf(),
        descends(q.cells.len() as int, room_len),
        room_len <= cap <= usize::MAX,
        0 <= q.pointer + offset < room_len,
    ensures
        reach(q, offset, cap) is Ok,
        reach(q, offset, cap)->Ok_0.1 == q.pointer + offset,
        reach(q, offset, cap)->Ok_0.0.wf(),
        reach(q, offset, cap)->Ok_0.0.pointer == q.pointer,
        descends(reach(q, offset, cap)->Ok_0.0.cells.len() as int, room_len),
        q.pointer + offset < reach(q, offset, cap)->Ok_0.0.cells.len(),
        forall|i: int| cell_at(reach(q, offset, cap)->Ok_0.0, i) == #[trigger] cell_at(q, i),
{
    let target = q.pointer + offset;
    lemma_descends_le(q.cells.len() as int, room_len);
    if offset > 0 {
        lemma_grown_len(q.cells.len() as int, target);
        lemma_grown_within(q.cells.len() as int, room_len, target);
    }
    let r = reach(q, offset, cap)->Ok_0.0;
    assert forall|i: int| cell_at(r, i) == #[trigger] cell_at(q, i) by {}
}

/// A machine leaner than a leaner machine is leaner.
pub proof fn lemma_lean_trans(r: Machine, q: Machine, p: Machine)
    requires
        lean(r, q),
        lean(q, p),
    ensures
        lean(r, p),
{
    lemma_descends_trans(r.cells.len() as int, q.cells.len() as int, p.cells.len() as int);
    assert forall|i: int| cell_at(r, i) == #[trigger] cell_at(p, i) by {
        assert(cell_at(r, i) == cell_at(q, i));
        assert(cell_at(q, i) == cell_at(p, i));
    }
}

/// A state that follows a following state follows.
pub proof fn lemma_follows_trans(r: State, q: State, p: State, cap: int)
    requires
        follows(r, q, cap),
        follows(q, p, cap),
    ensures
        follows(r, p, cap),
{
    lemma_lean_trans(r.m, q.m, p.m);
}

/// A state follows itself.
pub proof fn lemma_follows_self(s: State, cap: int)
    requires
        s.m.wf(),
        s.m.cells.len() <= cap <= usize::MAX,
        0 <= s.steps,
    ensures
        follows(s, s, cap),
{
    assert forall|i: int| cell_at(s.m, i) == #[trigger] cell_at(s.m, i) by {}
}

} // verus!
