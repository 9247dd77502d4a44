//! The bracket matcher: for each `[` and `]` of a filtered program, the index
//! of its partner.

use crate::nesting::{
    balanced, dangling_open, depth, lemma_scan_close, lemma_scan_end, lemma_scan_open,
    lemma_scan_other, lemma_scan_start, lemma_scan_stray, no_stray_close, pairs, scan_inv,
    stray_close,
};
use crate::parse::{CLOSE, OPEN};
use crate::text::{decimal, push_decimal};
use vstd::prelude::*;
use vstd::string::*;

verus! {

/// The entry of the jump table for a byte that is not a bracket.
pub const NO_JUMP: usize = usize::MAX;

/// The nesting step of one program byte.
pub open spec fn step_of(b: u8) -> int {
    if b == OPEN {
        1
    } else if b == CLOSE {
        -1
    } else {
        0
    }
}

/// The nesting steps of a program.
pub open spec fn steps(ops: Seq<u8>) -> Seq<int> {
    Seq::new(ops.len(), |i: int| step_of(ops[i]))
}

/// The message for a `]` at `at` that closes nothing.
pub open spec fn stray_close_text(at: int) -> Seq<char> {
    "syntax error: unmatched ']' at "@ + decimal(at as nat)
}

/// The message for a `[` at `at` that is never closed.
pub open spec fn dangling_open_text(at: int) -> Seq<char> {
    "syntax error: unmatched '[' at "@ + decimal(at as nat)
}

/// Whether `jumps` is the jump table of `ops`: partners point at each other,
/// every other entry is [`NO_JUMP`].
pub open spec fn is_jump_table(ops: Seq<u8>, jumps: Seq<usize>) -> bool {
    &&& jumps.len() == ops.len()
    &&& forall|i: int|
        0 <= i < ops.len() ==> {
            &&& ops[i] == OPEN ==> pairs(steps(ops), i, #[trigger] jumps[i] as int)
            &&& ops[i] == CLOSE ==> pairs(steps(ops), jumps[i] as int, i)
            &&& ops[i] != OPEN && ops[i] != CLOSE ==> jumps[i] == NO_JUMP
        }
}

/// Whether `text` reports the imbalance of `ops`, found at `n`: the first `]`
/// that closes nothing or, where there is none, the innermost `[` left open.
pub open spec fn reports_imbalance(ops: Seq<u8>, n: int, text: Seq<char>) -> bool {
    ||| stray_close(steps(ops), n) && text == stray_close_text(n)
    ||| no_stray_close(steps(ops)) && dangling_open(steps(ops), n) && text == dangling_open_text(
        n,
    )
}

/// What the matcher's table holds after `idx` bytes.
spec fn table_inv(ops: Seq<u8>, idx: int, stack: Seq<usize>, jumps: Seq<usize>) -> bool {
    &&& jumps.len() == ops.len()
    &&& forall|i: int|
        0 <= i < ops.len() ==> {
            &&& ops[i] == CLOSE && i < idx ==> pairs(steps(ops), #[trigger] jumps[i] as int, i)
            &&& ops[i] == OPEN && i < idx && !stack.contains(i as usize) ==> pairs(
                steps(ops),
                i,
                jumps[i] as int,
            )
            &&& ops[i] != OPEN && ops[i] != CLOSE ==> jumps[i] == NO_JUMP
        }
}

/// Computes the jump table of a filtered program, or reports the first
/// unmatched `]`, or else the innermost `[` that is never closed.
pub fn build_jumps(ops: &[u8]) -> (r: Result<Vec<usize>, String>)
    ensures
        r is Ok <==> balanced(steps(ops@)),
        r matches Ok(jumps) ==> is_jump_table(ops@, jumps@),
        r matches Err(e) ==> exists|n: int| reports_imbalance(ops@, n, e@),
{
    let ghost d = steps(ops@);
    let mut jumps: Vec<usize> = Vec::new();
    let mut k: usize = 0;
    while k < ops.len()
        invariant
            k <= ops.len(),
            jumps.len() == k,
            forall|i: int| 0 <= i < k ==> jumps[i] == NO_JUMP,
        decreases ops.len() - k,
    {
        jumps.push(NO_JUMP);
        k += 1;
    }
    let mut stack: Vec<usize> = Vec::new();
    let mut idx: usize = 0;
    proof {
        lemma_scan_start(d);
    }
    while idx < ops.len()
        invariant
            d == steps(ops@),
            idx <= ops.len(),
            scan_inv(d, idx as int, stack@),
            table_inv(ops@, idx as int, stack@, jumps@),
            forall|i: int| idx <= i < ops.len() ==> jumps[i] == NO_JUMP,
            forall|s: int| 0 <= s < stack.len() ==> jumps[stack[s] as int] == NO_JUMP,
        decreases ops.len() - idx,
    {
        let op = ops[idx];
        if op == OPEN {
            proof {
                lemma_scan_open(d, idx as int, stack@);
                let next = stack@.push(idx);
                assert forall|i: int| 0 <= i < ops.len() implies {
                    &&& ops@[i] == CLOSE && i < idx + 1 ==> pairs(d, #[trigger] jumps[i] as int, i)
                    &&& ops@[i] == OPEN && i < idx + 1 && !next.contains(i as usize) ==> pairs(
                        d,
                        i,
                        jumps[i] as int,
                    )
                    &&& ops@[i] != OPEN && ops@[i] != CLOSE ==> jumps[i] == NO_JUMP
                } by {
                    if ops@[i] == OPEN && i < idx + 1 && !next.contains(i as usize) {
                        assert(next[stack.len() as int] == idx);
                        assert(i != idx);
                        if stack@.contains(i as usize) {
                            let s = choose|s: int| 0 <= s < stack.len() && stack[s] == i as usize;
                            assert(next[s] == i as usize);
                        }
                    }
                }
            }
            stack.push(idx);
        } else if op == CLOSE {
            if stack.len() == 0 {
                proof {
                    lemma_scan_stray(d, idx as int, stack@);
                }
                let mut e = String::from_str("syntax error: unmatched ']' at ");
                push_decimal(&mut e, idx as u128);
                assert(reports_imbalance(ops@, idx as int, e@));
                let r: Result<Vec<usize>, String> = Err(e);
                assert(r matches Err(x) && reports_imbalance(ops@, idx as int, x@));
                return r;
            }
            let ghost before = stack@;
            let ghost table = jumps@;
            let open = stack.pop().unwrap();
            proof {
                lemma_scan_close(d, idx as int, before);
                assert(before.last() == open);
                assert(stack@ == before.drop_last());
            }
            jumps[open] = idx;
            jumps[idx] = open;
            proof {
                assert forall|i: int| 0 <= i < ops.len() implies {
                    &&& ops@[i] == CLOSE && i < idx + 1 ==> pairs(d, #[trigger] jumps[i] as int, i)
                    &&& ops@[i] == OPEN && i < idx + 1 && !stack@.contains(i as usize) ==> pairs(
                        d,
                        i,
                        jumps[i] as int,
                    )
                    &&& ops@[i] != OPEN && ops@[i] != CLOSE ==> jumps[i] == NO_JUMP
                } by {
                    if i != open && i != idx {
                        assert(jumps[i] == table[i]);
                        if ops@[i] == OPEN && i < idx && !stack@.contains(i as usize) {
                            if before.contains(i as usize) {
                                let s = choose|s: int|
                                    0 <= s < before.len() && before[s] == i as usize;
                                if s < before.len() - 1 {
                                    assert(stack@[s] == i as usize);
                                }
                            }
                        }
                    }
                }
                assert forall|s: int| 0 <= s < stack.len() implies jumps[stack[s] as int]
                    == NO_JUMP by {
                    assert(stack[s] == before[s]);
                    assert(depth(d, before[s] as int) == s);
                    assert(depth(d, open as int) == before.len() - 1);
                }
            }
        } else {
            proof {
                lemma_scan_other(d, idx as int, stack@);
            }
        }
        idx += 1;
    }
    proof {
        lemma_scan_end(d, stack@);
    }
    if stack.len() > 0 {
        let open = stack[stack.len() - 1];
        let mut e = String::from_str("syntax error: unmatched '[' at ");
        push_decimal(&mut e, open as u128);
        assert(reports_imbalance(ops@, open as int, e@));
        let r: Result<Vec<usize>, String> = Err(e);
        assert(r matches Err(x) && reports_imbalance(ops@, open as int, x@));
        return r;
    }
    proof {
        assert forall|i: int| 0 <= i < ops.len() implies {
            &&& ops@[i] == OPEN ==> pairs(d, i, #[trigger] jumps[i] as int)
            &&& ops@[i] == CLOSE ==> pairs(d, jumps[i] as int, i)
            &&& ops@[i] != OPEN && ops@[i] != CLOSE ==> jumps[i] == NO_JUMP
        } by {
            assert(!stack@.contains(i as usize));
        }
    }
    Ok(jumps)
}

/// An imbalance is reported in one way only.
pub proof fn lemma_imbalance_unique(ops: Seq<u8>, n1: int, t1: Seq<char>, n2: int, t2: Seq<char>)
    requires
        reports_imbalance(ops, n1, t1),
        reports_imbalance(ops, n2, t2),
    ensures
        n1 == n2,
        t1 == t2,
{
    let d = steps(ops);
    if stray_close(d, n1) {
        assert(depth(d, n1 + 1) == depth(d, n1) + d[n1]);
        if stray_close(d, n2) {
            assert(depth(d, n2 + 1) == depth(d, n2) + d[n2]);
        }
    } else {
        if stray_close(d, n2) {
            assert(depth(d, n2 + 1) == depth(d, n2) + d[n2]);
        } else {
            if n1 < n2 {
                assert(depth(d, n2) > depth(d, n1));
                assert(depth(d, n2 + 1) == depth(d, n2) + d[n2]);
            } else if n2 < n1 {
                assert(depth(d, n1) > depth(d, n2));
                assert(depth(d, n1 + 1) == depth(d, n1) + d[n1]);
            }
        }
    }
}

} // verus!
