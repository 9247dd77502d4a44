//! The optimizer passes: merging of linear runs, loop idiom recognition, and
//! the relinking of jumps that every length-changing pass calls for.

use crate::ir::{jump_step, jump_steps, program, well_linked, Instr, Op};
use crate::nesting::{
    balanced, dangling_open, depth, lemma_pairs_unique_close, lemma_pairs_unique_open,
    lemma_scan_close, lemma_scan_end, lemma_scan_open, lemma_scan_other, lemma_scan_start,
    lemma_scan_stray, no_stray_close, pairs, scan_inv, stray_close,
};
use crate::text::{decimal, push_decimal};
use vstd::prelude::*;
use vstd::string::*;

verus! {

/// The message for a `Jnz` at `at` that closes nothing.
pub open spec fn stray_jnz_text(at: int) -> Seq<char> {
    "unmatched ']' at "@ + decimal(at as nat)
}

/// The message for a `Jz` at `at` that is never closed.
pub open spec fn dangling_jz_text(at: int) -> Seq<char> {
    "unmatched '[' at "@ + decimal(at as nat)
}

/// Whether `text` reports the imbalance of the jumps of `p`, found at `n`: the
/// first `Jnz` that closes nothing or, where there is none, the innermost `Jz`
/// left open.
pub open spec fn reports_unlinkable(p: Seq<Op>, n: int, text: Seq<char>) -> bool {
    ||| stray_close(jump_steps(p), n) && text == stray_jnz_text(n)
    ||| no_stray_close(jump_steps(p)) && dangling_open(jump_steps(p), n) && text
        == dangling_jz_text(n)
}

/// `op`, at `i`, is a `Jz` that names its partner, which lies in front of `limit`.
pub open spec fn links_open(d: Seq<int>, op: Op, i: int, limit: int) -> bool {
    op matches Op::Jz(t) && pairs(d, i, t as int) && t < limit
}

/// `op`, at `i`, is a `Jnz` that names its partner.
pub open spec fn links_close(d: Seq<int>, op: Op, i: int) -> bool {
    op matches Op::Jnz(t) && pairs(d, t as int, i)
}

/// How far a left-to-right relinking got: `limit` is the position of the
/// stray `Jnz`, or the length of the program where there is none.
pub open spec fn relink_limit(p: Seq<Op>) -> int {
    if exists|n: int| stray_close(jump_steps(p), n) {
        choose|n: int| stray_close(jump_steps(p), n)
    } else {
        p.len() as int
    }
}

/// `after` is `before` with the jumps of every loop that closes in front of
/// `limit` pointed at each other, and nothing else changed.
#[verifier::opaque]
pub open spec fn relinked(before: Seq<Op>, after: Seq<Op>, limit: int) -> bool {
    let d = jump_steps(before);
    &&& after.len() == before.len()
    &&& forall|i: int|
        0 <= i < before.len() ==> {
            &&& jump_step(#[trigger] after[i]) == jump_step(before[i])
            &&& jump_step(before[i]) == 0 ==> after[i] == before[i]
        }
    &&& forall|i: int, j: int|
        #[trigger] pairs(d, i, j) && j < limit ==> after[i] == Op::Jz(j as usize) && after[j]
            == Op::Jnz(i as usize)
    &&& forall|i: int|
        0 <= i < before.len() ==> {
            ||| #[trigger] after[i] == before[i]
            ||| links_open(d, after[i], i, limit)
            ||| links_close(d, after[i], i) && i < limit
        }
}

/// The partner of the jump at `i`.
pub open spec fn partner(d: Seq<int>, i: int) -> int {
    if d[i] == 1 {
        choose|j: int| pairs(d, i, j)
    } else {
        choose|j: int| pairs(d, j, i)
    }
}

/// The program with every jump pointed at its partner.
pub open spec fn linked(p: Seq<Op>) -> Seq<Op> {
    Seq::new(
        p.len(),
        |i: int|
            match p[i] {
                Op::Jz(_) => Op::Jz(partner(jump_steps(p), i) as usize),
                Op::Jnz(_) => Op::Jnz(partner(jump_steps(p), i) as usize),
                other => other,
            },
    )
}

/// A balanced program, fully relinked, is the linked program.
pub proof fn lemma_relinked_is_linked(before: Seq<Op>, after: Seq<Op>)
    requires
        before.len() <= usize::MAX,
        balanced(jump_steps(before)),
        relinked(before, after, before.len() as int),
    ensures
        after == linked(before),
        jump_steps(after) == jump_steps(before),
{
    reveal(relinked);
    let d = jump_steps(before);
    assert forall|i: int| 0 <= i < before.len() implies after[i] == linked(before)[i] by {
        assert(jump_step(after[i]) == jump_step(before[i]));
        lemma_partner_exists(d, i);
        if d[i] == 1 {
            let j = partner(d, i);
            assert(pairs(d, i, j) && j < before.len());
        } else if d[i] == -1 {
            let j = partner(d, i);
            assert(pairs(d, j, i) && i < before.len());
        }
    }
    assert(after =~= linked(before));
    assert(jump_steps(after) =~= d) by {
        assert forall|i: int| 0 <= i < d.len() implies jump_steps(after)[i] == d[i] by {
            assert(jump_step(after[i]) == jump_step(before[i]));
        }
    }
}

/// Linking a program with balanced jumps gives a program that satisfies the
/// jump invariant, and leaves every instruction that is no jump as it is.
pub proof fn lemma_linked_well(p: Seq<Op>)
    requires
        p.len() <= usize::MAX,
        balanced(jump_steps(p)),
    ensures
        well_linked(linked(p)),
        jump_steps(linked(p)) == jump_steps(p),
        linked(p).len() == p.len(),
        forall|i: int|
            0 <= i < p.len() ==> jump_step(#[trigger] linked(p)[i]) == jump_step(p[i]) && (
            jump_step(p[i]) == 0 ==> linked(p)[i] == p[i]),
{
    let d = jump_steps(p);
    let q = linked(p);
    assert(jump_steps(q) =~= d);
    assert forall|i: int| 0 <= i < q.len() implies {
        &&& #[trigger] q[i] matches Op::Jz(t) ==> pairs(d, i, t as int)
        &&& q[i] matches Op::Jnz(t) ==> pairs(d, t as int, i)
    } by {
        lemma_partner_exists(d, i);
        if d[i] == 1 {
            let j = partner(d, i);
            assert(pairs(d, i, j));
        } else if d[i] == -1 {
            let j = partner(d, i);
            assert(pairs(d, j, i));
        }
    }
}

/// What relinking has done after `idx` instructions.
spec fn relink_inv(before: Seq<Op>, now: Seq<Op>, idx: int, stack: Seq<usize>) -> bool {
    let d = jump_steps(before);
    &&& now.len() == before.len()
    &&& forall|i: int|
        0 <= i < before.len() ==> {
            &&& jump_step(#[trigger] now[i]) == jump_step(before[i])
            &&& jump_step(before[i]) == 0 ==> now[i] == before[i]
            &&& i >= idx || stack.contains(i as usize) ==> now[i] == before[i]
            &&& d[i] == -1 && i < idx ==> links_close(d, now[i], i)
            &&& d[i] == 1 && i < idx && !stack.contains(i as usize) ==> links_open(
                d,
                now[i],
                i,
                idx,
            )
        }
}

/// The invariant of a finished or interrupted scan gives the relinking.
proof fn lemma_relinked(before: Seq<Op>, now: Seq<Op>, idx: int, stack: Seq<usize>)
    requires
        relink_inv(before, now, idx, stack),
        scan_inv(jump_steps(before), idx, stack),
    ensures
        relinked(before, now, idx),
{
    reveal(relinked);
    let d = jump_steps(before);
    assert forall|i: int, j: int| #[trigger] pairs(d, i, j) && j < idx implies now[i] == Op::Jz(
        j as usize,
    ) && now[j] == Op::Jnz(i as usize) by {
        assert(jump_step(now[j]) == jump_step(before[j]));
        match now[j] {
            Op::Jnz(t) => {
                lemma_pairs_unique_open(d, i, t as int, j);
            },
            _ => {},
        }
        assert(jump_step(now[i]) == jump_step(before[i]));
        if stack.contains(i as usize) {
            let s = choose|s: int| 0 <= s < stack.len() && stack[s] == i as usize;
            assert(depth(d, stack[s] as int) == s);
            assert(depth(d, j + 1) > s);
        }
        match now[i] {
            Op::Jz(t) => {
                lemma_pairs_unique_close(d, i, j, t as int);
            },
            _ => {},
        }
    }
    assert forall|i: int| 0 <= i < before.len() implies {
        ||| #[trigger] now[i] == before[i]
        ||| links_open(d, now[i], i, idx)
        ||| links_close(d, now[i], i) && i < idx
    } by {
        assert(jump_step(now[i]) == jump_step(before[i]));
    }
}

/// The nesting step of a stored instruction.
fn jump_kind(instr: &Instr) -> (k: i8)
    ensures
        k == jump_step(instr@),
{
    match instr {
        Instr::Jz(_) => 1,
        Instr::Jnz(_) => -1,
        _ => 0,
    }
}

/// Recomputes every jump target from the bracket structure alone: each `Jz`
/// and the `Jnz` that closes its loop are pointed at each other. Targets that
/// were there before are not read. Fails on the first `Jnz` that closes
/// nothing or, at the end, on the innermost `Jz` left open; the loops closed
/// up to there stay relinked.
pub fn rebuild_jumps(ir: &mut Vec<Instr>) -> (r: Result<(), String>)
    ensures
        r is Ok <==> balanced(jump_steps(program(old(ir)@))),
        r is Ok ==> well_linked(program(final(ir)@)) && program(final(ir)@) == linked(
            program(old(ir)@),
        ) && jump_steps(program(final(ir)@)) == jump_steps(program(old(ir)@)),
        relinked(program(old(ir)@), program(final(ir)@), relink_limit(program(old(ir)@))),
        r matches Err(e) ==> exists|n: int| reports_unlinkable(program(old(ir)@), n, e@),
{
    let ghost before = program(ir@);
    let ghost d = jump_steps(before);
    let mut stack: Vec<usize> = Vec::new();
    let mut idx: usize = 0;
    proof {
        lemma_scan_start(d);
    }
    while idx < ir.len()
        invariant
            before == program(old(ir)@),
            d == jump_steps(before),
            idx <= ir.len(),
            ir.len() == before.len(),
            scan_inv(d, idx as int, stack@),
            relink_inv(before, program(ir@), idx as int, stack@),
        decreases ir.len() - idx,
    {
        let kind = jump_kind(&ir[idx]);
        let ghost now = program(ir@);
        assert(now[idx as int] == ir@[idx as int]@);
        if kind == 1 {
            proof {
                lemma_scan_open(d, idx as int, stack@);
                let next = stack@.push(idx);
                assert(next[stack.len() as int] == idx);
                assert forall|i: int| 0 <= i < before.len() implies {
                    &&& (i >= idx + 1 || next.contains(i as usize) ==> #[trigger] now[i]
                        == before[i])
                    &&& (d[i] == 1 && i < idx + 1 && !next.contains(i as usize) ==> links_open(
                        d,
                        now[i],
                        i,
                        idx + 1,
                    ))
                } by {
                    if next.contains(i as usize) && i != idx {
                        let s = choose|s: int| 0 <= s < next.len() && next[s] == i as usize;
                        assert(stack@[s] == i as usize);
                    }
                    if stack@.contains(i as usize) {
                        let s = choose|s: int| 0 <= s < stack.len() && stack[s] == i as usize;
                        assert(next[s] == i as usize);
                    }
                }
            }
            stack.push(idx);
        } else if kind == -1 {
            if stack.len() == 0 {
                proof {
                    lemma_scan_stray(d, idx as int, stack@);
                    lemma_relinked(before, now, idx as int, stack@);
                    lemma_stray_limit(before, idx as int);
                }
                let mut e = String::from_str("unmatched ']' at ");
                push_decimal(&mut e, idx as u128);
                let r: Result<(), String> = Err(e);
                assert(r matches Err(x) && reports_unlinkable(before, idx as int, x@));
                return r;
            }
            let ghost waiting = stack@;
            let open = stack.pop().unwrap();
            proof {
                lemma_scan_close(d, idx as int, waiting);
                assert(waiting.last() == open);
                assert(stack@ == waiting.drop_last());
                assert(waiting[waiting.len() - 1] == open);
            }
            ir[open] = Instr::Jz(idx);
            ir[idx] = Instr::Jnz(open);
            proof {
                let fresh = program(ir@);
                assert(fresh[open as int] == ir@[open as int]@);
                assert(fresh[idx as int] == ir@[idx as int]@);
                assert forall|i: int| 0 <= i < before.len() implies {
                    &&& jump_step(#[trigger] fresh[i]) == jump_step(before[i])
                    &&& jump_step(before[i]) == 0 ==> fresh[i] == before[i]
                    &&& i >= idx + 1 || stack@.contains(i as usize) ==> fresh[i] == before[i]
                    &&& d[i] == -1 && i < idx + 1 ==> links_close(d, fresh[i], i)
                    &&& d[i] == 1 && i < idx + 1 && !stack@.contains(i as usize) ==> links_open(
                        d,
                        fresh[i],
                        i,
                        idx + 1,
                    )
                } by {
                    assert(jump_step(now[i]) == jump_step(before[i]));
                    if i != open && i != idx {
                        assert(fresh[i] == ir@[i]@);
                        assert(now[i] == fresh[i]);
                        if stack@.contains(i as usize) {
                            let s = choose|s: int| 0 <= s < stack.len() && stack[s] == i as usize;
                            assert(waiting[s] == i as usize);
                        }
                        if waiting.contains(i as usize) {
                            let s = choose|s: int|
                                0 <= s < waiting.len() && waiting[s] == i as usize;
                            if s < waiting.len() - 1 {
                                assert(stack@[s] == i as usize);
                            }
                        }
                    } else if i == open {
                        if stack@.contains(i as usize) {
                            let s = choose|s: int| 0 <= s < stack.len() && stack[s] == i as usize;
                            assert(waiting[s] == i as usize);
                            assert(depth(d, waiting[s] as int) == s);
                        }
                    }
                }
            }
        } else {
            proof {
                lemma_scan_other(d, idx as int, stack@);
            }
        }
        idx += 1;
    }
    proof {
        lemma_scan_end(d, stack@);
        lemma_relinked(before, program(ir@), idx as int, stack@);
        lemma_no_stray_limit(before);
    }
    if stack.len() > 0 {
        let open = stack[stack.len() - 1];
        let mut e = String::from_str("unmatched '[' at ");
        push_decimal(&mut e, open as u128);
        let r: Result<(), String> = Err(e);
        assert(r matches Err(x) && reports_unlinkable(before, open as int, x@));
        return r;
    }
    proof {
        lemma_relinked_balanced(before, program(ir@));
        lemma_relinked_is_linked(before, program(ir@));
    }
    Ok(())
}

/// The stray `Jnz` is where relinking stops.
proof fn lemma_stray_limit(p: Seq<Op>, n: int)
    requires
        stray_close(jump_steps(p), n),
    ensures
        relink_limit(p) == n,
{
    let d = jump_steps(p);
    let m = choose|m: int| stray_close(d, m);
    if m < n {
        assert(depth(d, m + 1) == depth(d, m) + d[m]);
    } else if n < m {
        assert(depth(d, n + 1) == depth(d, n) + d[n]);
    }
}

/// Without a stray `Jnz`, relinking reaches the end.
proof fn lemma_no_stray_limit(p: Seq<Op>)
    requires
        no_stray_close(jump_steps(p)),
    ensures
        relink_limit(p) == p.len(),
{
    let d = jump_steps(p);
    if exists|n: int| stray_close(d, n) {
        let n = choose|n: int| stray_close(d, n);
        assert(depth(d, n + 1) == depth(d, n) + d[n]);
    }
}

/// A balanced program, fully relinked, satisfies the jump invariant.
pub proof fn lemma_relinked_balanced(before: Seq<Op>, after: Seq<Op>)
    requires
        before.len() <= usize::MAX,
        balanced(jump_steps(before)),
        relinked(before, after, before.len() as int),
    ensures
        well_linked(after),
{
    reveal(relinked);
    let d = jump_steps(before);
    assert(jump_steps(after) =~= d) by {
        assert forall|i: int| 0 <= i < d.len() implies jump_steps(after)[i] == d[i] by {
            assert(jump_step(after[i]) == jump_step(before[i]));
        }
    }
    assert forall|i: int| 0 <= i < after.len() implies {
        &&& #[trigger] after[i] matches Op::Jz(t) ==> pairs(d, i, t as int)
        &&& after[i] matches Op::Jnz(t) ==> pairs(d, t as int, i)
    } by {
        assert(jump_step(after[i]) == jump_step(before[i]));
        lemma_partner_exists(d, i);
        if d[i] == 1 {
            let j = choose|j: int| pairs(d, i, j);
            assert(pairs(d, i, j) && j < before.len());
        } else if d[i] == -1 {
            let j = choose|j: int| pairs(d, j, i);
            assert(pairs(d, j, i) && i < before.len());
        }
    }
}

/// In a balanced stream every open and every close has a partner.
pub proof fn lemma_partner_exists(d: Seq<int>, i: int)
    requires
        balanced(d),
        0 <= i < d.len(),
        forall|k: int| 0 <= k < d.len() ==> -1 <= #[trigger] d[k] <= 1,
    ensures
        d[i] == 1 ==> exists|j: int| pairs(d, i, j),
        d[i] == -1 ==> exists|j: int| pairs(d, j, i),
{
    if d[i] == 1 {
        let j = lemma_find_close(d, i, i + 1);
        assert(pairs(d, i, j));
    } else if d[i] == -1 {
        assert(depth(d, i + 1) == depth(d, i) + d[i]);
        let j = lemma_find_open(d, i, i);
        assert(pairs(d, j, i));
    }
}

/// Walking right from an open, the depth must come back down to its level.
proof fn lemma_find_close(d: Seq<int>, i: int, m: int) -> (j: int)
    requires
        balanced(d),
        0 <= i < m <= d.len(),
        d[i] == 1,
        forall|k: int| 0 <= k < d.len() ==> -1 <= #[trigger] d[k] <= 1,
        forall|k: int| i < k <= m ==> depth(d, k) > depth(d, i),
    ensures
        pairs(d, i, j),
    decreases d.len() - m,
{
    assert(depth(d, i) >= 0);
    if m == d.len() {
        assert(depth(d, m) > depth(d, i));
        m
    } else {
        assert(depth(d, m + 1) == depth(d, m) + d[m]);
        if depth(d, m + 1) == depth(d, i) {
            assert(d[m] == -1);
            m
        } else {
            lemma_find_close(d, i, m + 1)
        }
    }
}

/// Walking left from a close, the depth must come back down to its level.
proof fn lemma_find_open(d: Seq<int>, j: int, m: int) -> (i: int)
    requires
        balanced(d),
        0 <= m <= j < d.len(),
        d[j] == -1,
        forall|k: int| 0 <= k < d.len() ==> -1 <= #[trigger] d[k] <= 1,
        forall|k: int| m < k <= j ==> #[trigger] depth(d, k) > depth(d, j + 1),
        depth(d, m) > depth(d, j + 1) || m == j,
    ensures
        pairs(d, i, j),
    decreases m,
{
    assert(depth(d, j + 1) == depth(d, j) + d[j]);
    assert(depth(d, j + 1) >= 0);
    if m == 0 {
        assert(depth(d, 0) == 0);
        m
    } else {
        assert(depth(d, m) == depth(d, m - 1) + d[m - 1]);
        if depth(d, m - 1) == depth(d, j + 1) {
            assert(d[m - 1] == 1);
            m - 1
        } else {
            lemma_find_open(d, j, m - 1)
        }
    }
}

/// Whether both instructions are `Add`s, or both are `Move`s.
pub open spec fn same_kind(a: Op, b: Op) -> bool {
    (a is Add && b is Add) || (a is Move && b is Move)
}

/// The delta carried by an `Add` or a `Move`.
pub open spec fn delta(op: Op) -> int {
    match op {
        Op::Add(d) => d as int,
        Op::Move(d) => d as int,
        _ => 0,
    }
}

/// The end of the maximal run of instructions of one kind that starts at `i`.
pub open spec fn run_end(p: Seq<Op>, i: int) -> int
    decreases p.len() - i,
{
    if 0 <= i && i + 1 < p.len() && same_kind(p[i], p[i + 1]) {
        run_end(p, i + 1)
    } else {
        i + 1
    }
}

/// The sum of the deltas of `p[i..e]`.
pub open spec fn run_sum(p: Seq<Op>, i: int, e: int) -> int
    decreases e - i,
{
    if e <= i {
        0
    } else {
        run_sum(p, i, e - 1) + delta(p[e - 1])
    }
}

/// An `Add` or a `Move` with the given delta.
pub open spec fn linear(adds: bool, v: i32) -> Op {
    if adds {
        Op::Add(v)
    } else {
        Op::Move(v)
    }
}

/// The instructions a run with the given sum merges into: none when the sum
/// is zero, one when it fits 32 bits, and otherwise as many of the extreme
/// value as it takes, followed by the rest.
pub open spec fn chunks(adds: bool, total: int) -> Seq<Op>
    decreases
        if total < 0 {
            -total
        } else {
            total
        },
{
    if total == 0 {
        Seq::empty()
    } else if total > i32::MAX {
        seq![linear(adds, i32::MAX)] + chunks(adds, total - i32::MAX)
    } else if total < i32::MIN {
        seq![linear(adds, i32::MIN)] + chunks(adds, total - i32::MIN)
    } else {
        seq![linear(adds, total as i32)]
    }
}

/// What merging makes of `p[i..]`.
pub open spec fn merged_from(p: Seq<Op>, i: int) -> Seq<Op>
    decreases p.len() - i,
{
    if i < 0 || i >= p.len() {
        Seq::empty()
    } else if p[i] is Add || p[i] is Move {
        let e = run_end(p, i);
        if i < e <= p.len() {
            chunks(p[i] is Add, run_sum(p, i, e)) + merged_from(p, e)
        } else {
            Seq::empty()
        }
    } else {
        seq![p[i]] + merged_from(p, i + 1)
    }
}

/// The program with every maximal run of `Add`s merged into the `Add`s of its
/// sum, and likewise for `Move`s; everything else in place.
pub open spec fn merged(p: Seq<Op>) -> Seq<Op> {
    merged_from(p, 0)
}

/// A run that cannot be extended ends where [`run_end`] says.
pub proof fn lemma_run_end(p: Seq<Op>, start: int, e: int)
    requires
        0 <= start < e <= p.len(),
        forall|k: int| start <= k < e ==> same_kind(p[start], #[trigger] p[k]),
        e == p.len() || !same_kind(p[start], p[e]),
    ensures
        run_end(p, start) == e,
    decreases e - start,
{
    if start + 1 < e {
        assert(same_kind(p[start], p[start + 1]));
        assert forall|k: int| start + 1 <= k < e implies same_kind(
            p[start + 1],
            #[trigger] p[k],
        ) by {
            assert(same_kind(p[start], p[k]));
        }
        lemma_run_end(p, start + 1, e);
    }
}

/// Storing one more instruction appends its view to the program.
pub proof fn lemma_program_push(ir: Seq<Instr>, instr: Instr)
    ensures
        program(ir.push(instr)) == program(ir).push(instr@),
{
    assert(program(ir.push(instr)) =~= program(ir).push(instr@));
}

/// Appends the instructions for a run with sum `acc`.
fn push_chunks(out: &mut Vec<Instr>, adds: bool, acc: i128)
    ensures
        program(final(out)@) == program(old(out)@) + chunks(adds, acc as int),
{
    let mut acc = acc;
    let ghost total = acc as int;
    let ghost start = program(out@);
    assert(start + chunks(adds, total) =~= start + chunks(adds, total));
    while acc != 0
        invariant
            program(out@) + chunks(adds, acc as int) == start + chunks(adds, total),
        decreases
            if acc < 0 {
                -acc
            } else {
                acc as int
            },
    {
        let chunk: i32 = if acc > 0 {
            if acc > i32::MAX as i128 {
                i32::MAX
            } else {
                acc as i32
            }
        } else {
            if acc < i32::MIN as i128 {
                i32::MIN
            } else {
                acc as i32
            }
        };
        let ghost stored = out@;
        let instr = if adds {
            Instr::Add(chunk)
        } else {
            Instr::Move(chunk)
        };
        proof {
            lemma_program_push(stored, instr);
            let rest = chunks(adds, acc as int - chunk as int);
            assert(chunks(adds, acc as int) =~= seq![linear(adds, chunk)] + rest);
            assert(program(stored).push(instr@) + rest =~= program(stored) + (seq![
                linear(adds, chunk),
            ] + rest));
        }
        out.push(instr);
        acc -= chunk as i128;
    }
    proof {
        assert(program(out@) + chunks(adds, 0) =~= program(out@));
    }
}

/// Appends the `Add`s for a run of `Add`s with sum `acc`.
fn push_add(out: &mut Vec<Instr>, acc: i128)
    ensures
        program(final(out)@) == program(old(out)@) + chunks(true, acc as int),
{
    push_chunks(out, true, acc);
}

/// Appends the `Move`s for a run of `Move`s with sum `acc`.
fn push_move(out: &mut Vec<Instr>, acc: i128)
    ensures
        program(final(out)@) == program(old(out)@) + chunks(false, acc as int),
{
    push_chunks(out, false, acc);
}

/// The bound that keeps a run's sum within 128 bits.
spec fn sum_bound(n: int) -> int {
    n * 0x8000_0000
}

/// Merges every maximal run of `Add`s, and of `Move`s, into the instructions
/// of its sum. Jump targets are left as they were, and so go stale.
fn merge_linear(ir: &mut Vec<Instr>)
    ensures
        program(final(ir)@) == merged(program(old(ir)@)),
{
    let ghost p = program(ir@);
    let mut out: Vec<Instr> = Vec::new();
    let mut i: usize = 0;
    assert(program(out@) + merged_from(p, 0) =~= merged(p));
    while i < ir.len()
        invariant
            p == program(ir@),
            i <= ir.len(),
            program(out@) + merged_from(p, i as int) == merged(p),
        decreases ir.len() - i,
    {
        assert(p[i as int] == ir@[i as int]@);
        let adds = match &ir[i] {
            Instr::Add(_) => Some(true),
            Instr::Move(_) => Some(false),
            _ => None,
        };
        match adds {
            Some(adds) => {
                let start = i;
                let mut acc: i128 = 0;
                loop
                    invariant
                        p == program(ir@),
                        start < ir.len(),
                        start <= i <= ir.len(),
                        p[start as int] is Add || p[start as int] is Move,
                        adds == (p[start as int] is Add),
                        forall|k: int| start <= k < i ==> same_kind(p[start as int], #[trigger] p[k]),
                        acc == run_sum(p, start as int, i as int),
                        -sum_bound(i - start) <= acc <= sum_bound(i - start),
                    ensures
                        start < i <= ir.len(),
                        run_end(p, start as int) == i,
                        acc == run_sum(p, start as int, i as int),
                    decreases ir.len() - i,
                {
                    if i >= ir.len() {
                        proof {
                            lemma_run_end(p, start as int, i as int);
                        }
                        break ;
                    }
                    assert(p[i as int] == ir@[i as int]@);
                    let step = match &ir[i] {
                        Instr::Add(d) => if adds {
                            Some(*d)
                        } else {
                            None
                        },
                        Instr::Move(d) => if adds {
                            None
                        } else {
                            Some(*d)
                        },
                        _ => None,
                    };
                    match step {
                        Some(d) => {
                            acc += d as i128;
                            i += 1;
                        },
                        None => {
                            proof {
                                lemma_run_end(p, start as int, i as int);
                            }
                            break ;
                        },
                    }
                }
                let ghost stored = program(out@);
                if adds {
                    push_add(&mut out, acc);
                } else {
                    push_move(&mut out, acc);
                }
                proof {
                    let run = chunks(adds, acc as int);
                    assert(merged_from(p, start as int) == run + merged_from(p, i as int));
                    assert((stored + run) + merged_from(p, i as int) =~= stored + (run
                        + merged_from(p, i as int)));
                }
            },
            None => {
                let ghost stored = out@;
                let instr = ir[i].clone();
                proof {
                    lemma_program_push(stored, instr);
                    assert(program(stored).push(instr@) + merged_from(p, i + 1) =~= program(stored)
                        + (seq![p[i as int]] + merged_from(p, i + 1)));
                }
                out.push(instr);
                i += 1;
            },
        }
    }
    proof {
        assert(program(out@) + merged_from(p, i as int) =~= program(out@));
    }
    *ir = out;
}

/// The first optimizer pass: merges runs of `Add`s and runs of `Move`s.
pub fn merge_ops(ir: &mut Vec<Instr>)
    ensures
        program(final(ir)@) == merged(program(old(ir)@)),
{
    merge_linear(ir);
}

/// The pass after loop recognition: merges what became adjacent.
pub fn peephole(ir: &mut Vec<Instr>)
    ensures
        program(final(ir)@) == merged(program(old(ir)@)),
{
    merge_linear(ir);
}

/// The pointer's offset from where the loop body started, in front of `body[k]`.
pub open spec fn offset_at(body: Seq<Op>, k: int) -> int
    decreases k,
{
    if k <= 0 {
        0
    } else {
        offset_at(body, k - 1) + if body[k - 1] is Move {
            delta(body[k - 1])
        } else {
            0
        }
    }
}

/// What the first `k` instructions of the body add, in sum, to the cell at
/// offset `o`.
pub open spec fn net_upto(body: Seq<Op>, k: int, o: int) -> int
    decreases k,
{
    if k <= 0 {
        0
    } else {
        net_upto(body, k - 1, o) + if body[k - 1] is Add && offset_at(body, k - 1) == o {
            delta(body[k - 1])
        } else {
            0
        }
    }
}

/// What one pass through the body adds to the cell at offset `o`.
pub open spec fn net(body: Seq<Op>, o: int) -> int {
    net_upto(body, body.len() as int, o)
}

/// The edits of a body for the offsets from `lo` up to, not including, `hi`:
/// in ascending order, each offset other than zero with a net delta other than
/// zero, paired with that delta.
pub open spec fn edits_in(body: Seq<Op>, lo: int, hi: int) -> Seq<(i32, i32)>
    decreases hi - lo,
{
    if hi <= lo {
        Seq::empty()
    } else {
        let rest = edits_in(body, lo, hi - 1);
        let o = hi - 1;
        if o != 0 && net(body, o) != 0 {
            rest.push((o as i32, net(body, o) as i32))
        } else {
            rest
        }
    }
}

/// The edits of a body, over all offsets.
pub open spec fn edits_of(body: Seq<Op>) -> Seq<(i32, i32)> {
    edits_in(body, i32::MIN as int, i32::MAX + 1)
}

/// The instructions between the `Jz` at `start` and its target.
pub open spec fn loop_body(p: Seq<Op>, start: int) -> Seq<Op> {
    p.subrange(start + 1, p[start]->Jz_0 as int)
}

/// Whether a loop starts at `start` that only adds and moves, comes back to
/// where it started, takes exactly one off the cell it tests, never strays
/// further than 32 bits can say, and has factors that fit 32 bits.
pub open spec fn is_linear_loop(p: Seq<Op>, start: int) -> bool {
    &&& is_loop_at(p, start)
    &&& {
        let body = loop_body(p, start);
        &&& forall|k: int| 0 <= k < body.len() ==> #[trigger] body[k] is Add || body[k] is Move
        &&& forall|k: int|
            0 <= k <= body.len() ==> i32::MIN <= #[trigger] offset_at(body, k) <= i32::MAX
        &&& offset_at(body, body.len() as int) == 0
        &&& net(body, 0) == -1
        &&& forall|o: int| o != 0 ==> i32::MIN <= #[trigger] net(body, o) <= i32::MAX
    }
}

/// Whether a `Jz` at `start` and the `Jnz` at its target name each other.
pub open spec fn is_loop_at(p: Seq<Op>, start: int) -> bool {
    &&& 0 <= start < p.len()
    &&& p[start] is Jz
    &&& start < p[start]->Jz_0 < p.len()
    &&& p[p[start]->Jz_0 as int] == Op::Jnz(start as usize)
}

/// Everything that makes a linear loop, but for the size of its factors.
spec fn is_linear_walk(p: Seq<Op>, start: int) -> bool {
    &&& is_loop_at(p, start)
    &&& {
        let body = loop_body(p, start);
        &&& forall|k: int| 0 <= k < body.len() ==> #[trigger] body[k] is Add || body[k] is Move
        &&& forall|k: int|
            0 <= k <= body.len() ==> i32::MIN <= #[trigger] offset_at(body, k) <= i32::MAX
        &&& offset_at(body, body.len() as int) == 0
        &&& net(body, 0) == -1
    }
}

/// Offsets strictly ascending.
spec fn ascending(e: Seq<(i32, i128)>) -> bool {
    forall|a: int, b: int| 0 <= a < b < e.len() ==> e[a].0 < e[b].0
}

/// The entries with `delta` added at `offset`, which is found or made at `pos`.
spec fn bumped(e: Seq<(i32, i128)>, pos: int, offset: i32, delta: i32) -> Seq<(i32, i128)> {
    if pos < e.len() && e[pos].0 == offset {
        e.update(pos, (offset, (e[pos].1 + delta) as i128))
    } else {
        e.insert(pos, (offset, delta as i128))
    }
}

/// Adds `delta` to the entry for `offset`, making the entry if there is none.
fn bump(deltas: &mut Vec<(i32, i128)>, offset: i32, delta: i32, Ghost(bound): Ghost<int>) -> (pos:
    usize)
    requires
        ascending(old(deltas)@),
        0 <= bound <= 0x1_0000_0000_0000_0000_0000_0000,
        forall|a: int| 0 <= a < old(deltas).len() ==> -bound <= #[trigger] old(deltas)[a].1 <= bound,
    ensures
        pos <= old(deltas).len(),
        forall|a: int| 0 <= a < pos ==> old(deltas)[a].0 < offset,
        forall|a: int| pos <= a < old(deltas).len() ==> old(deltas)[a].0 >= offset,
        final(deltas)@ == bumped(old(deltas)@, pos as int, offset, delta),
        ascending(final(deltas)@),
        forall|a: int|
            0 <= a < final(deltas).len() ==> -bound - 0x8000_0000 <= #[trigger] final(deltas)[a].1
                <= bound + 0x8000_0000,
{
    let mut pos: usize = 0;
    while pos < deltas.len() && deltas[pos].0 < offset
        invariant
            pos <= deltas.len(),
            deltas@ == old(deltas)@,
            forall|a: int| 0 <= a < pos ==> deltas[a].0 < offset,
        decreases deltas.len() - pos,
    {
        pos += 1;
    }
    if pos < deltas.len() && deltas[pos].0 == offset {
        let value = deltas[pos].1;
        deltas[pos] = (offset, value + delta as i128);
    } else {
        deltas.insert(pos, (offset, delta as i128));
    }
    pos
}

/// Looks the entry for `offset` up.
fn lookup(deltas: &Vec<(i32, i128)>, offset: i32) -> (r: Option<i128>)
    ensures
        r matches Some(v) ==> exists|a: int| 0 <= a < deltas.len() && deltas[a] == (offset, v),
        r is None ==> forall|a: int| 0 <= a < deltas.len() ==> deltas[a].0 != offset,
{
    let mut a: usize = 0;
    while a < deltas.len()
        invariant
            a <= deltas.len(),
            forall|b: int| 0 <= b < a ==> deltas[b].0 != offset,
        decreases deltas.len() - a,
    {
        if deltas[a].0 == offset {
            return Some(deltas[a].1);
        }
        a += 1;
    }
    None
}

/// What the tally of a linear body knows after `k` instructions.
spec fn tally_inv(body: Seq<Op>, k: int, e: Seq<(i32, i128)>) -> bool {
    &&& ascending(e)
    &&& forall|a: int| 0 <= a < e.len() ==> (#[trigger] e[a]).1 == net_upto(body, k, e[a].0 as int)
    &&& forall|o: int| #[trigger]
        net_upto(body, k, o) != 0 ==> exists|a: int| 0 <= a < e.len() && (#[trigger] e[a]).0 == o
}

/// A tally stays one when an instruction that is no `Add` is passed.
proof fn lemma_tally_skip(body: Seq<Op>, k: int, e: Seq<(i32, i128)>)
    requires
        tally_inv(body, k, e),
        0 <= k < body.len(),
        !(body[k] is Add),
    ensures
        tally_inv(body, k + 1, e),
{
    assert forall|o: int| net_upto(body, k + 1, o) == net_upto(body, k, o) by {}
    assert forall|o: int| #[trigger] net_upto(body, k + 1, o) != 0 implies exists|a: int|
        0 <= a < e.len() && (#[trigger] e[a]).0 == o by {
        assert(net_upto(body, k, o) != 0);
    }
}

/// A tally stays one when an `Add` is entered at the current offset.
proof fn lemma_tally_bump(
    body: Seq<Op>,
    k: int,
    e: Seq<(i32, i128)>,
    pos: int,
    offset: i32,
    d: i32,
)
    requires
        tally_inv(body, k, e),
        0 <= k < body.len(),
        body[k] == Op::Add(d),
        offset_at(body, k) == offset,
        0 <= pos <= e.len(),
        forall|a: int| 0 <= a < pos ==> e[a].0 < offset,
        forall|a: int| pos <= a < e.len() ==> e[a].0 >= offset,
        ascending(bumped(e, pos, offset, d)),
        pos < e.len() && e[pos].0 == offset ==> i128::MIN <= e[pos].1 + d <= i128::MAX,
    ensures
        tally_inv(body, k + 1, bumped(e, pos, offset, d)),
{
    let f = bumped(e, pos, offset, d);
    let found = pos < e.len() && e[pos].0 == offset;
    assert forall|o: int| net_upto(body, k + 1, o) == net_upto(body, k, o) + if o == offset {
        d as int
    } else {
        0
    } by {}
    if !found {
        if net_upto(body, k, offset as int) != 0 {
            let a = choose|a: int| 0 <= a < e.len() && (#[trigger] e[a]).0 == offset as int;
            assert(false);
        }
    }
    assert forall|a: int| 0 <= a < f.len() implies (#[trigger] f[a]).1 == net_upto(
        body,
        k + 1,
        f[a].0 as int,
    ) by {
        if found {
            if a != pos {
                assert(f[a] == e[a]);
                assert(e[a].0 != offset);
            }
        } else {
            if a < pos {
                assert(f[a] == e[a]);
            } else if a > pos {
                assert(f[a] == e[a - 1]);
                assert(e[a - 1].0 != offset);
            }
        }
    }
    assert forall|o: int| #[trigger] net_upto(body, k + 1, o) != 0 implies exists|a: int|
        0 <= a < f.len() && (#[trigger] f[a]).0 == o by {
        if o == offset {
            assert(f[pos].0 == o);
        } else {
            assert(net_upto(body, k, o) != 0);
            let a = choose|a: int| 0 <= a < e.len() && (#[trigger] e[a]).0 == o;
            if found {
                assert(f[a].0 == o);
            } else if a < pos {
                assert(f[a].0 == o);
            } else {
                assert(f[a + 1] == e[a]);
                assert(f[a + 1].0 == o);
            }
        }
    }
}

/// A strictly ascending list that holds exactly the offsets of `lo..hi` with
/// an edit, each with its net delta, is the list of edits of `lo..hi`.
proof fn lemma_edits_in(body: Seq<Op>, edits: Seq<(i32, i32)>, lo: int, hi: int)
    requires
        lo <= hi,
        forall|a: int, b: int| 0 <= a < b < edits.len() ==> edits[a].0 < edits[b].0,
        forall|a: int|
            0 <= a < edits.len() ==> {
                &&& lo <= (#[trigger] edits[a]).0 < hi
                &&& edits[a].0 != 0
                &&& edits[a].1 != 0
                &&& edits[a].1 == net(body, edits[a].0 as int)
            },
        forall|o: int|
            lo <= o < hi && o != 0 && #[trigger] net(body, o) != 0 ==> exists|a: int|
                0 <= a < edits.len() && (#[trigger] edits[a]).0 == o,
    ensures
        edits == edits_in(body, lo, hi),
    decreases hi - lo,
{
    if hi <= lo {
        assert(edits.len() == 0) by {
            if edits.len() > 0 {
                assert(lo <= edits[0].0 < hi);
            }
        }
        assert(edits =~= Seq::empty());
    } else {
        let o = hi - 1;
        if o != 0 && net(body, o) != 0 {
            let a = choose|a: int| 0 <= a < edits.len() && (#[trigger] edits[a]).0 == o;
            let last = edits.len() - 1;
            if a < last {
                assert(edits[a].0 < edits[last].0);
                assert(edits[last].0 < hi);
            }
            let rest = edits.drop_last();
            assert forall|x: int| 0 <= x < rest.len() implies {
                &&& lo <= (#[trigger] rest[x]).0 < hi - 1
                &&& rest[x].0 != 0
                &&& rest[x].1 != 0
                &&& rest[x].1 == net(body, rest[x].0 as int)
            } by {
                assert(rest[x] == edits[x]);
                assert(edits[x].0 < edits[last].0);
            }
            assert forall|q: int|
                lo <= q < hi - 1 && q != 0 && #[trigger] net(body, q) != 0 implies exists|x: int|
                0 <= x < rest.len() && (#[trigger] rest[x]).0 == q by {
                let x = choose|x: int| 0 <= x < edits.len() && (#[trigger] edits[x]).0 == q;
                assert(x != last);
                assert(rest[x].0 == q);
            }
            lemma_edits_in(body, rest, lo, hi - 1);
            assert(edits =~= rest.push(edits[last]));
        } else {
            assert forall|x: int| 0 <= x < edits.len() implies lo <= (#[trigger] edits[x]).0 < hi
                - 1 by {
                if edits[x].0 == o {
                    assert(edits[x].1 == net(body, o));
                }
            }
            lemma_edits_in(body, edits, lo, hi - 1);
        }
    }
}

/// Recognizes the general linear loop: a loop at `start` whose body only adds
/// and moves, ends where it began, and takes exactly one off the tested cell.
/// Returns the index behind the loop and its edits, ascending by offset.
fn try_addmul_loop(ir: &[Instr], start: usize) -> (r: Option<(usize, Vec<(i32, i32)>)>)
    ensures
        r is Some <==> is_linear_loop(program(ir@), start as int),
        r matches Some((next, edits)) ==> next == program(ir@)[start as int]->Jz_0 + 1 && edits@
            == edits_of(loop_body(program(ir@), start as int)),
{
    let ghost p = program(ir@);
    if start >= ir.len() {
        return None;
    }
    assert(p[start as int] == ir@[start as int]@);
    let target = match &ir[start] {
        Instr::Jz(target) => *target,
        _ => {
            return None;
        },
    };
    if target <= start || target >= ir.len() {
        return None;
    }
    assert(p[target as int] == ir@[target as int]@);
    match &ir[target] {
        Instr::Jnz(back) => {
            if *back != start {
                return None;
            }
        },
        _ => {
            return None;
        },
    }
    let ghost body = loop_body(p, start as int);
    let mut rel: i64 = 0;
    let mut deltas: Vec<(i32, i128)> = Vec::new();
    let mut k: usize = start + 1;
    while k < target
        invariant
            p == program(ir@),
            body == loop_body(p, start as int),
            p[start as int] == Op::Jz(target),
            start < target < ir.len(),
            start + 1 <= k <= target,
            body.len() == target - start - 1,
            forall|m: int| 0 <= m < k - start - 1 ==> #[trigger] body[m] is Add || body[m] is Move,
            forall|m: int|
                0 <= m <= k - start - 1 ==> i32::MIN <= #[trigger] offset_at(body, m) <= i32::MAX,
            rel == offset_at(body, k - start - 1),
            tally_inv(body, k - start - 1, deltas@),
            forall|a: int|
                0 <= a < deltas.len() ==> -(k - start - 1) * 0x8000_0000 <= (
                #[trigger] deltas[a]).1 <= (k - start - 1) * 0x8000_0000,
        decreases target - k,
    {
        let ghost m = k - start - 1;
        assert(body[m] == p[k as int]);
        assert(p[k as int] == ir@[k as int]@);
        match &ir[k] {
            Instr::Add(d) => {
                let offset = rel as i32;
                let ghost before = deltas@;
                let pos = bump(&mut deltas, offset, *d, Ghost(m * 0x8000_0000));
                proof {
                    lemma_tally_bump(body, m, before, pos as int, offset, *d);
                }
            },
            Instr::Move(d) => {
                rel += *d as i64;
                if rel < i32::MIN as i64 || rel > i32::MAX as i64 {
                    proof {
                        assert(offset_at(body, m + 1) == rel);
                    }
                    return None;
                }
                proof {
                    lemma_tally_skip(body, m, deltas@);
                }
            },
            _ => {
                return None;
            },
        }
        k += 1;
    }
    if rel != 0 {
        return None;
    }
    let delta0 = match lookup(&deltas, 0) {
        Some(v) => v,
        None => 0,
    };
    proof {
        if net(body, 0) != 0 {
            let a = choose|a: int| 0 <= a < deltas.len() && (#[trigger] deltas[a]).0 == 0;
            assert(deltas[a].1 == net(body, 0));
        }
    }
    if delta0 != -1 {
        return None;
    }
    assert(is_linear_walk(p, start as int));
    let mut edits: Vec<(i32, i32)> = Vec::new();
    let mut a: usize = 0;
    while a < deltas.len()
        invariant
            a <= deltas.len(),
            p == program(ir@),
            body == loop_body(p, start as int),
            is_linear_walk(p, start as int),
            tally_inv(body, body.len() as int, deltas@),
            forall|x: int, y: int| 0 <= x < y < edits.len() ==> edits[x].0 < edits[y].0,
            forall|x: int|
                0 <= x < edits.len() ==> {
                    &&& (#[trigger] edits[x]).0 != 0
                    &&& edits[x].1 != 0
                    &&& edits[x].1 == net(body, edits[x].0 as int)
                },
            forall|x: int, b: int|
                0 <= x < edits.len() && a <= b < deltas.len() ==> (#[trigger] edits[x]).0 < (
                #[trigger] deltas[b]).0,
            forall|b: int|
                0 <= b < a && (#[trigger] deltas[b]).0 != 0 && deltas[b].1 != 0 ==> {
                    &&& i32::MIN <= deltas[b].1 <= i32::MAX
                    &&& exists|x: int| 0 <= x < edits.len() && (#[trigger] edits[x]).0 == deltas[b].0
                },
        decreases deltas.len() - a,
    {
        let (offset, value) = deltas[a];
        if offset != 0 && value != 0 {
            if value < i32::MIN as i128 || value > i32::MAX as i128 {
                proof {
                    assert(net(body, offset as int) == value);
                }
                return None;
            }
            let ghost listed = edits@;
            edits.push((offset, value as i32));
            proof {
                assert forall|x: int, y: int| 0 <= x < y < edits.len() implies edits[x].0
                    < edits[y].0 by {
                    if y == listed.len() {
                        assert(edits[x] == listed[x]);
                        assert(listed[x].0 < deltas[a as int].0);
                    } else {
                        assert(edits[x] == listed[x] && edits[y] == listed[y]);
                    }
                }
                assert forall|x: int, b: int|
                    0 <= x < edits.len() && a + 1 <= b < deltas.len() implies (
                #[trigger] edits[x]).0 < (#[trigger] deltas[b]).0 by {
                    if x < listed.len() {
                        assert(edits[x] == listed[x]);
                    } else {
                        assert(deltas[a as int].0 < deltas[b].0);
                    }
                }
                assert forall|b: int|
                    0 <= b < a + 1 && (#[trigger] deltas[b]).0 != 0 && deltas[b].1 != 0 implies {
                    &&& i32::MIN <= deltas[b].1 <= i32::MAX
                    &&& exists|x: int| 0 <= x < edits.len() && (#[trigger] edits[x]).0 == deltas[b].0
                } by {
                    if b < a {
                        let x = choose|x: int|
                            0 <= x < listed.len() && (#[trigger] listed[x]).0 == deltas[b].0;
                        assert(edits[x].0 == deltas[b].0);
                    } else {
                        assert(edits[listed.len() as int].0 == deltas[b].0);
                    }
                }
                assert forall|x: int| 0 <= x < edits.len() implies {
                    &&& (#[trigger] edits[x]).0 != 0
                    &&& edits[x].1 != 0
                    &&& edits[x].1 == net(body, edits[x].0 as int)
                } by {
                    if x < listed.len() {
                        assert(edits[x] == listed[x]);
                    }
                }
            }
        }
        a += 1;
    }
    proof {
        assert forall|o: int|
            i32::MIN <= o < i32::MAX + 1 && o != 0 && #[trigger] net(body, o) != 0 implies exists|
            x: int,
        | 0 <= x < edits.len() && (#[trigger] edits[x]).0 == o by {
            let b = choose|b: int| 0 <= b < deltas.len() && (#[trigger] deltas[b]).0 == o;
            assert(deltas[b].1 == net(body, o));
        }
        lemma_edits_in(body, edits@, i32::MIN as int, i32::MAX + 1);
        assert forall|o: int| o != 0 implies i32::MIN <= #[trigger] net(body, o) <= i32::MAX by {
            if net(body, o) != 0 {
                let b = choose|b: int| 0 <= b < deltas.len() && (#[trigger] deltas[b]).0 == o;
                assert(deltas[b].1 == net(body, o));
            }
        }
    }
    Some((target + 1, edits))
}

/// The six-instruction transfer loop at `i`, if there is one: `Jz`, `Add(-1)`,
/// `Move(o)`, `Add(s)`, `Move(-o)`, `Jnz`, with `o` not zero and `s` one or
/// minus one. Gives `(o, s)`.
pub open spec fn addto_at(p: Seq<Op>, i: int) -> Option<(i32, i32)> {
    if 0 <= i && i + 5 < p.len() && p[i] is Jz && p[i]->Jz_0 == i + 5 && p[i + 1] is Add && p[i
        + 1]->Add_0 == -1 && p[i + 2] is Move && p[i + 3] is Add && p[i + 4] is Move && p[i
        + 5] is Jnz && p[i + 5]->Jnz_0 == i {
        let o = p[i + 2]->Move_0;
        let s = p[i + 3]->Add_0;
        let back = p[i + 4]->Move_0;
        if o != 0 && (s == 1 || s == -1) && back == -o {
            Some((o, s))
        } else {
            None
        }
    } else {
        None
    }
}

/// The scan loop at `i`, if there is one: `Jz`, `Move(d)`, `Jnz`, with `d` one
/// or minus one. Gives `d`.
pub open spec fn scan_at(p: Seq<Op>, i: int) -> Option<i32> {
    if 0 <= i && i + 2 < p.len() && p[i] is Jz && p[i]->Jz_0 == i + 2 && p[i + 1] is Move && (p[i
        + 1]->Move_0 == 1 || p[i + 1]->Move_0 == -1) && p[i + 2] is Jnz && p[i + 2]->Jnz_0 == i {
        Some(p[i + 1]->Move_0)
    } else {
        None
    }
}

/// Whether the clearing loop is at `i`: `Jz`, `Add(d)`, `Jnz`, with `d` one or
/// minus one.
pub open spec fn clear_at(p: Seq<Op>, i: int) -> bool {
    0 <= i && i + 2 < p.len() && p[i] is Jz && p[i]->Jz_0 == i + 2 && p[i + 1] is Add && (p[i
        + 1]->Add_0 == 1 || p[i + 1]->Add_0 == -1) && p[i + 2] is Jnz && p[i + 2]->Jnz_0 == i
}

/// What loop recognition makes of `p[i..]`.
pub open spec fn analyzed_from(p: Seq<Op>, i: int) -> Seq<Op>
    decreases p.len() - i,
{
    if i < 0 || i >= p.len() {
        Seq::empty()
    } else if let Some(pair) = addto_at(p, i) {
        let (o, s) = pair;
        seq![Op::AddTo(o, s)] + analyzed_from(p, i + 6)
    } else if let Some(dir) = scan_at(p, i) {
        seq![Op::Scan(dir)] + analyzed_from(p, i + 3)
    } else if clear_at(p, i) {
        seq![Op::SetZero] + analyzed_from(p, i + 3)
    } else if is_linear_loop(p, i) {
        seq![Op::AddMul(edits_of(loop_body(p, i)))] + analyzed_from(p, p[i]->Jz_0 + 1)
    } else {
        seq![p[i]] + analyzed_from(p, i + 1)
    }
}

/// The program with each idiomatic loop replaced by the one instruction that
/// does its work. At each position the idioms are tried in this order:
/// transfer, scan, clear, general linear loop.
pub open spec fn analyzed(p: Seq<Op>) -> Seq<Op> {
    analyzed_from(p, 0)
}

/// The target of a `Jz`.
fn jz_target(instr: &Instr) -> (r: Option<usize>)
    ensures
        r is Some <==> instr@ is Jz,
        r matches Some(t) ==> t == instr@->Jz_0,
{
    match instr {
        Instr::Jz(t) => Some(*t),
        _ => None,
    }
}

/// The target of a `Jnz`.
fn jnz_target(instr: &Instr) -> (r: Option<usize>)
    ensures
        r is Some <==> instr@ is Jnz,
        r matches Some(t) ==> t == instr@->Jnz_0,
{
    match instr {
        Instr::Jnz(t) => Some(*t),
        _ => None,
    }
}

/// The delta of an `Add`.
fn add_delta(instr: &Instr) -> (r: Option<i32>)
    ensures
        r is Some <==> instr@ is Add,
        r matches Some(d) ==> d == instr@->Add_0,
{
    match instr {
        Instr::Add(d) => Some(*d),
        _ => None,
    }
}

/// The delta of a `Move`.
fn move_delta(instr: &Instr) -> (r: Option<i32>)
    ensures
        r is Some <==> instr@ is Move,
        r matches Some(d) ==> d == instr@->Move_0,
{
    match instr {
        Instr::Move(d) => Some(*d),
        _ => None,
    }
}

/// Whether a `Jz` at `i` and a `Jnz` at `i + span` name each other.
fn frames(ir: &[Instr], i: usize, span: usize) -> (r: bool)
    requires
        span <= 5,
    ensures
        r == (i + span < ir.len() && program(ir@)[i as int] is Jz && program(
            ir@,
        )[i as int]->Jz_0 == i + span && program(ir@)[i + span] is Jnz && program(ir@)[i
            + span]->Jnz_0 == i),
{
    if i >= ir.len() || span >= ir.len() - i {
        return false;
    }
    assert(program(ir@)[i as int] == ir@[i as int]@);
    assert(program(ir@)[i + span] == ir@[i + span]@);
    match (jz_target(&ir[i]), jnz_target(&ir[i + span])) {
        (Some(t), Some(b)) => t == i + span && b == i,
        _ => false,
    }
}

/// Recognizes the transfer loop at `i`.
fn match_addto(ir: &[Instr], i: usize) -> (r: Option<(i32, i32)>)
    ensures
        r == addto_at(program(ir@), i as int),
{
    if !frames(ir, i, 5) {
        return None;
    }
    let ghost p = program(ir@);
    assert(p[i + 1] == ir@[i + 1]@);
    assert(p[i + 2] == ir@[i + 2]@);
    assert(p[i + 3] == ir@[i + 3]@);
    assert(p[i + 4] == ir@[i + 4]@);
    match (add_delta(&ir[i + 1]), move_delta(&ir[i + 2]), add_delta(&ir[i + 3]), move_delta(
        &ir[i + 4],
    )) {
        (Some(dec), Some(offset), Some(sign), Some(back)) => {
            if dec == -1 && offset != 0 && (sign == 1 || sign == -1) && offset != i32::MIN && back
                == -offset {
                Some((offset, sign))
            } else {
                None
            }
        },
        _ => None,
    }
}

/// Recognizes the scan loop at `i`.
fn match_scan(ir: &[Instr], i: usize) -> (r: Option<i32>)
    ensures
        r == scan_at(program(ir@), i as int),
{
    if !frames(ir, i, 2) {
        return None;
    }
    assert(program(ir@)[i + 1] == ir@[i + 1]@);
    match move_delta(&ir[i + 1]) {
        Some(dir) => if dir == 1 || dir == -1 {
            Some(dir)
        } else {
            None
        },
        None => None,
    }
}

/// Recognizes the clearing loop at `i`.
fn match_clear(ir: &[Instr], i: usize) -> (r: bool)
    ensures
        r == clear_at(program(ir@), i as int),
{
    if !frames(ir, i, 2) {
        return false;
    }
    assert(program(ir@)[i + 1] == ir@[i + 1]@);
    match add_delta(&ir[i + 1]) {
        Some(d) => d == 1 || d == -1,
        None => false,
    }
}

/// The loop recognizer: replaces each idiomatic loop by one instruction and
/// copies everything else. Jump targets are read to find the loops and are
/// left as they were, so they go stale where a loop in front of them shrank.
pub fn loop_analysis(ir: &mut Vec<Instr>)
    ensures
        program(final(ir)@) == analyzed(program(old(ir)@)),
{
    let ghost p = program(ir@);
    let mut out: Vec<Instr> = Vec::new();
    let mut i: usize = 0;
    assert(program(out@) + analyzed_from(p, 0) =~= analyzed(p));
    while i < ir.len()
        invariant
            p == program(ir@),
            i <= ir.len(),
            program(out@) + analyzed_from(p, i as int) == analyzed(p),
        decreases ir.len() - i,
    {
        let ghost stored = out@;
        let ghost rest = analyzed_from(p, i as int);
        let (instr, next) = match match_addto(ir.as_slice(), i) {
            Some((offset, sign)) => (Instr::AddTo(offset, sign), i + 6),
            None => match match_scan(ir.as_slice(), i) {
                Some(dir) => (Instr::Scan(dir), i + 3),
                None => if match_clear(ir.as_slice(), i) {
                    (Instr::SetZero, i + 3)
                } else {
                    match try_addmul_loop(ir.as_slice(), i) {
                        Some((next, edits)) => (Instr::AddMul(edits), next),
                        None => {
                            assert(p[i as int] == ir@[i as int]@);
                            (ir[i].clone(), i + 1)
                        },
                    }
                },
            },
        };
        proof {
            lemma_program_push(stored, instr);
            assert(rest == seq![instr@] + analyzed_from(p, next as int));
            assert(program(stored).push(instr@) + analyzed_from(p, next as int) =~= program(stored)
                + (seq![instr@] + analyzed_from(p, next as int)));
        }
        out.push(instr);
        i = next;
    }
    proof {
        assert(program(out@) + analyzed_from(p, i as int) =~= program(out@));
    }
    *ir = out;
}

} // verus!
