//! Bracket nesting, as mathematics.
//!
//! A stream of loop delimiters is abstracted to a sequence of steps: `1`
//! where a loop opens, `-1` where one closes, `0` elsewhere. Everything the
//! matcher and the jump relinker promise is stated over the running sum of
//! those steps.

use vstd::prelude::*;

verus! {

/// The nesting depth in front of position `k`: opens minus closes among the
/// first `k` steps.
pub open spec fn depth(d: Seq<int>, k: int) -> int
    decreases k,
{
    if k <= 0 {
        0
    } else {
        depth(d, k - 1) + d[k - 1]
    }
}

/// No prefix closes more loops than it opened.
pub open spec fn no_stray_close(d: Seq<int>) -> bool {
    forall|k: int| 0 <= k <= d.len() ==> depth(d, k) >= 0
}

/// Every close has an open in front of it and every open is closed.
pub open spec fn balanced(d: Seq<int>) -> bool {
    no_stray_close(d) && depth(d, d.len() as int) == 0
}

/// The open at `i` and the close at `j` delimit one loop: the depth after `j`
/// is back to the depth in front of `i` for the first time.
pub open spec fn pairs(d: Seq<int>, i: int, j: int) -> bool {
    &&& 0 <= i < j < d.len()
    &&& d[i] == 1
    &&& d[j] == -1
    &&& depth(d, j + 1) == depth(d, i)
    &&& forall|m: int| i < m <= j ==> depth(d, m) > depth(d, i)
}

/// The close at `j` is the first one with no open left to match.
pub open spec fn stray_close(d: Seq<int>, j: int) -> bool {
    &&& 0 <= j < d.len()
    &&& d[j] == -1
    &&& depth(d, j) == 0
    &&& forall|k: int| 0 <= k <= j ==> depth(d, k) >= 0
}

/// The open at `i` is never closed, and it is the innermost such open.
pub open spec fn dangling_open(d: Seq<int>, i: int) -> bool {
    &&& 0 <= i < d.len()
    &&& d[i] == 1
    &&& depth(d, d.len() as int) == depth(d, i) + 1
    &&& forall|m: int| i < m <= d.len() ==> depth(d, m) > depth(d, i)
}

/// What a left-to-right scan knows after `idx` steps: `stack` holds the opens
/// that are still waiting for their close, outermost first.
pub open spec fn scan_inv(d: Seq<int>, idx: int, stack: Seq<usize>) -> bool {
    &&& 0 <= idx <= d.len()
    &&& stack.len() == depth(d, idx)
    &&& forall|k: int| 0 <= k <= idx ==> depth(d, k) >= 0
    &&& forall|s: int|
        0 <= s < stack.len() ==> {
            &&& 0 <= #[trigger] stack[s] < idx
            &&& d[stack[s] as int] == 1
            &&& depth(d, stack[s] as int) == s
            &&& forall|m: int| stack[s] < m <= idx ==> depth(d, m) > s
        }
}

/// A scan starts with an empty stack.
pub proof fn lemma_scan_start(d: Seq<int>)
    ensures
        scan_inv(d, 0, Seq::<usize>::empty()),
{
}

/// Stepping over an open pushes its index.
pub proof fn lemma_scan_open(d: Seq<int>, idx: int, stack: Seq<usize>)
    requires
        scan_inv(d, idx, stack),
        idx < d.len(),
        idx <= usize::MAX,
        d[idx] == 1,
    ensures
        scan_inv(d, idx + 1, stack.push(idx as usize)),
{
    let next = stack.push(idx as usize);
    assert(depth(d, idx + 1) == depth(d, idx) + d[idx]);
    assert forall|s: int| 0 <= s < next.len() implies {
        &&& 0 <= #[trigger] next[s] < idx + 1
        &&& d[next[s] as int] == 1
        &&& depth(d, next[s] as int) == s
        &&& forall|m: int| next[s] < m <= idx + 1 ==> depth(d, m) > s
    } by {
        if s < stack.len() {
            assert(next[s] == stack[s]);
        }
    }
}

/// Stepping over a close pops the innermost waiting open, and the two pair up.
pub proof fn lemma_scan_close(d: Seq<int>, idx: int, stack: Seq<usize>)
    requires
        scan_inv(d, idx, stack),
        idx < d.len(),
        d[idx] == -1,
        stack.len() > 0,
    ensures
        scan_inv(d, idx + 1, stack.drop_last()),
        pairs(d, stack.last() as int, idx),
{
    let rest = stack.drop_last();
    let top = stack.len() - 1;
    assert(depth(d, idx + 1) == depth(d, idx) + d[idx]);
    assert(stack[top] == stack.last());
    assert forall|s: int| 0 <= s < rest.len() implies {
        &&& 0 <= #[trigger] rest[s] < idx + 1
        &&& d[rest[s] as int] == 1
        &&& depth(d, rest[s] as int) == s
        &&& forall|m: int| rest[s] < m <= idx + 1 ==> depth(d, m) > s
    } by {
        assert(rest[s] == stack[s]);
    }
}

/// Stepping over anything else leaves the stack alone.
pub proof fn lemma_scan_other(d: Seq<int>, idx: int, stack: Seq<usize>)
    requires
        scan_inv(d, idx, stack),
        idx < d.len(),
        d[idx] == 0,
    ensures
        scan_inv(d, idx + 1, stack),
{
    assert(depth(d, idx + 1) == depth(d, idx) + d[idx]);
}

/// A close met with an empty stack is the stray close.
pub proof fn lemma_scan_stray(d: Seq<int>, idx: int, stack: Seq<usize>)
    requires
        scan_inv(d, idx, stack),
        idx < d.len(),
        d[idx] == -1,
        stack.len() == 0,
    ensures
        stray_close(d, idx),
        !no_stray_close(d),
{
    assert(depth(d, idx + 1) == depth(d, idx) + d[idx]);
}

/// What is left on the stack at the end decides between balanced and dangling.
pub proof fn lemma_scan_end(d: Seq<int>, stack: Seq<usize>)
    requires
        scan_inv(d, d.len() as int, stack),
    ensures
        no_stray_close(d),
        stack.len() == 0 ==> balanced(d),
        stack.len() > 0 ==> dangling_open(d, stack.last() as int) && !balanced(d),
{
    if stack.len() > 0 {
        assert(stack[stack.len() - 1] == stack.last());
    }
}

/// An open has at most one partner.
pub proof fn lemma_pairs_unique_close(d: Seq<int>, i: int, j1: int, j2: int)
    requires
        pairs(d, i, j1),
        pairs(d, i, j2),
    ensures
        j1 == j2,
{
    if j1 < j2 {
        assert(depth(d, j1 + 1) > depth(d, i));
    } else if j2 < j1 {
        assert(depth(d, j2 + 1) > depth(d, i));
    }
}

/// A close has at most one partner.
pub proof fn lemma_pairs_unique_open(d: Seq<int>, i1: int, i2: int, j: int)
    requires
        pairs(d, i1, j),
        pairs(d, i2, j),
    ensures
        i1 == i2,
{
    assert(depth(d, j + 1) == depth(d, j) + d[j]);
    if i1 < i2 {
        assert(depth(d, i2 + 1) == depth(d, i2) + d[i2]);
        assert(depth(d, i2) > depth(d, i1));
        assert(depth(d, j + 1) == depth(d, i2));
    } else if i2 < i1 {
        assert(depth(d, i1 + 1) == depth(d, i1) + d[i1]);
        assert(depth(d, i1) > depth(d, i2));
        assert(depth(d, j + 1) == depth(d, i1));
    }
}

} // verus!
