//! Balance of a stream of nesting steps, told step by step, and what leaves
//! it alone: steps that are zero, and whole loops without a loop inside.

use crate::nesting::{balanced, depth, pairs};
use vstd::prelude::*;

verus! {

/// Whether the steps `d`, taken from depth `h`, never go below depth zero and
/// end at depth zero.
pub open spec fn settles(d: Seq<int>, h: int) -> bool
    decreases d.len(),
{
    if d.len() == 0 {
        h == 0
    } else {
        h + d[0] >= 0 && settles(d.drop_first(), h + d[0])
    }
}

/// The depth in a stream without its first step.
proof fn lemma_depth_drop_first(d: Seq<int>, k: int)
    requires
        0 <= k < d.len(),
    ensures
        depth(d.drop_first(), k) == depth(d, k + 1) - d[0],
    decreases k,
{
    if k > 0 {
        lemma_depth_drop_first(d, k - 1);
        assert(d.drop_first()[k - 1] == d[k]);
    } else {
        assert(depth(d, 1) == depth(d, 0) + d[0]);
    }
}

/// Settling from depth `h` is staying at or above zero throughout and ending
/// at zero.
pub proof fn lemma_settles(d: Seq<int>, h: int)
    requires
        h >= 0,
    ensures
        settles(d, h) <==> (forall|k: int| 0 <= k <= d.len() ==> h + #[trigger] depth(d, k) >= 0)
            && h + depth(d, d.len() as int) == 0,
    decreases d.len(),
{
    if d.len() > 0 {
        let rest = d.drop_first();
        assert(depth(d, 1) == depth(d, 0) + d[0]);
        if h + d[0] >= 0 {
            lemma_settles(rest, h + d[0]);
            assert forall|k: int| 0 <= k < d.len() implies depth(rest, k) == #[trigger] depth(
                d,
                k + 1,
            ) - d[0] by {
                lemma_depth_drop_first(d, k);
            }
            lemma_depth_drop_first(d, d.len() - 1);
            if settles(d, h) {
                assert forall|k: int| 0 <= k <= d.len() implies h + #[trigger] depth(d, k)
                    >= 0 by {
                    if k > 0 {
                        assert(depth(rest, k - 1) == depth(d, k - 1 + 1) - d[0]);
                        assert(h + d[0] + depth(rest, k - 1) >= 0);
                    }
                }
            }
            if (forall|k: int| 0 <= k <= d.len() ==> h + #[trigger] depth(d, k) >= 0) && h + depth(
                d,
                d.len() as int,
            ) == 0 {
                assert forall|k: int| 0 <= k <= rest.len() implies h + d[0] + #[trigger] depth(
                    rest,
                    k,
                ) >= 0 by {
                    if k < d.len() {
                        assert(depth(rest, k) == depth(d, k + 1) - d[0]);
                    }
                    assert(h + depth(d, k + 1) >= 0);
                }
            }
        } else {
            assert(h + depth(d, 1) < 0);
        }
    }
}

/// A stream is balanced exactly if it settles from depth zero.
pub proof fn lemma_balanced_settles(d: Seq<int>)
    ensures
        balanced(d) <==> settles(d, 0),
{
    lemma_settles(d, 0);
}

/// Steps of zero in front change nothing.
pub proof fn lemma_settles_zeros(z: Seq<int>, d: Seq<int>, h: int)
    requires
        h >= 0,
        forall|k: int| 0 <= k < z.len() ==> #[trigger] z[k] == 0,
    ensures
        settles(z + d, h) <==> settles(d, h),
    decreases z.len(),
{
    if z.len() == 0 {
        assert(z + d =~= d);
    } else {
        assert((z + d).drop_first() =~= z.drop_first() + d);
        assert((z + d)[0] == z[0]);
        lemma_settles_zeros(z.drop_first(), d, h);
    }
}

/// A loop with only zero steps inside, in front, changes nothing.
pub proof fn lemma_settles_loop(z: Seq<int>, d: Seq<int>, h: int)
    requires
        h >= 0,
        forall|k: int| 0 <= k < z.len() ==> #[trigger] z[k] == 0,
    ensures
        settles(seq![1int] + z + seq![-1int] + d, h) <==> settles(d, h),
{
    let whole = seq![1int] + z + seq![-1int] + d;
    assert(whole.drop_first() =~= z + (seq![-1int] + d));
    assert(whole[0] == 1);
    lemma_settles_zeros(z, seq![-1int] + d, h + 1);
    assert((seq![-1int] + d).drop_first() =~= d);
    assert((seq![-1int] + d)[0] == -1);
}

/// One step in front.
pub proof fn lemma_settles_one(x: int, d: Seq<int>, h: int)
    ensures
        settles(seq![x] + d, h) <==> h + x >= 0 && settles(d, h + x),
{
    assert((seq![x] + d).drop_first() =~= d);
    assert((seq![x] + d)[0] == x);
}

/// How many steps of `d` are taken, from depth `h`, before the step that
/// brings the depth to zero; the length of `d` where no step does.
pub open spec fn closer(d: Seq<int>, h: int) -> int
    decreases d.len(),
{
    if d.len() == 0 {
        0
    } else if h + d[0] == 0 {
        0
    } else {
        1 + closer(d.drop_first(), h + d[0])
    }
}

/// Whether every step is an open, a close or neither.
pub open spec fn unit_steps(d: Seq<int>) -> bool {
    forall|k: int| 0 <= k < d.len() ==> -1 <= #[trigger] d[k] <= 1
}

/// The depth in a stream without its first steps.
pub proof fn lemma_depth_skip(d: Seq<int>, i: int, k: int)
    requires
        0 <= i,
        0 <= k,
        i + k <= d.len(),
    ensures
        depth(d.skip(i), k) == depth(d, i + k) - depth(d, i),
    decreases k,
{
    if k > 0 {
        lemma_depth_skip(d, i, k - 1);
        assert(d.skip(i)[k - 1] == d[i + k - 1]);
    }
}

/// What [`closer`] finds is the first step that brings the depth to zero.
pub proof fn lemma_closer(d: Seq<int>, h: int)
    requires
        h >= 1,
        unit_steps(d),
    ensures
        0 <= closer(d, h) <= d.len(),
        forall|k: int| 0 <= k <= closer(d, h) ==> h + #[trigger] depth(d, k) > 0,
        closer(d, h) < d.len() ==> h + depth(d, closer(d, h) + 1) == 0 && d[closer(d, h)] == -1,
    decreases d.len(),
{
    if d.len() > 0 {
        assert(depth(d, 1) == depth(d, 0) + d[0]);
        if h + d[0] != 0 {
            let rest = d.drop_first();
            assert(unit_steps(rest)) by {
                assert forall|k: int| 0 <= k < rest.len() implies -1 <= #[trigger] rest[k] <= 1 by {
                    assert(rest[k] == d[k + 1]);
                }
            }
            lemma_closer(rest, h + d[0]);
            let c = closer(rest, h + d[0]);
            assert forall|k: int| 0 <= k <= c + 1 implies h + #[trigger] depth(d, k) > 0 by {
                if k > 0 {
                    lemma_depth_skip(d, 1, k - 1);
                    assert(d.skip(1) =~= rest);
                    assert(h + d[0] + depth(rest, k - 1) > 0);
                }
            }
            if c < rest.len() {
                lemma_depth_skip(d, 1, c + 1);
                assert(d.skip(1) =~= rest);
                assert(rest[c] == d[c + 1]);
            }
        }
    }
}

/// The close that pairs with the open at `i` is the one that [`closer`]
/// finds behind it.
pub proof fn lemma_pairs_closer(d: Seq<int>, i: int, j: int)
    requires
        unit_steps(d),
        0 <= i < d.len(),
        d[i] == 1,
    ensures
        pairs(d, i, j) <==> j == i + 1 + closer(d.skip(i + 1), 1) && j < d.len(),
{
    let e = d.skip(i + 1);
    assert(unit_steps(e)) by {
        assert forall|k: int| 0 <= k < e.len() implies -1 <= #[trigger] e[k] <= 1 by {
            assert(e[k] == d[i + 1 + k]);
        }
    }
    lemma_closer(e, 1);
    let c = closer(e, 1);
    assert(depth(d, i + 1) == depth(d, i) + d[i]);
    assert forall|k: int| 0 <= k <= e.len() implies depth(e, k) == #[trigger] depth(d, i + 1 + k)
        - depth(d, i + 1) by {
        lemma_depth_skip(d, i + 1, k);
    }
    if c < e.len() {
        let jc = i + 1 + c;
        assert(d[jc] == e[c]);
        assert(depth(e, c + 1) == depth(d, i + 1 + (c + 1)) - depth(d, i + 1));
        assert forall|m: int| i < m <= jc implies depth(d, m) > depth(d, i) by {
            assert(depth(e, m - i - 1) == depth(d, i + 1 + (m - i - 1)) - depth(d, i + 1));
            assert(1 + depth(e, m - i - 1) > 0);
        }
        assert(pairs(d, i, jc));
    }
    if pairs(d, i, j) {
        if j - i - 1 < c {
            assert(depth(e, j - i - 1 + 1) == depth(d, i + 1 + (j - i - 1 + 1)) - depth(d, i + 1));
            assert(1 + depth(e, j - i) > 0);
        } else if j - i - 1 > c {
            assert(depth(e, c + 1) == depth(d, i + 1 + (c + 1)) - depth(d, i + 1));
            assert(depth(d, i + c + 2) > depth(d, i));
        }
    }
}

/// Steps of zero in front shift what [`closer`] finds.
pub proof fn lemma_closer_zeros(z: Seq<int>, d: Seq<int>, h: int)
    requires
        h >= 1,
        forall|k: int| 0 <= k < z.len() ==> #[trigger] z[k] == 0,
    ensures
        closer(z + d, h) == z.len() + closer(d, h),
    decreases z.len(),
{
    if z.len() == 0 {
        assert(z + d =~= d);
    } else {
        assert((z + d).drop_first() =~= z.drop_first() + d);
        assert((z + d)[0] == z[0]);
        lemma_closer_zeros(z.drop_first(), d, h);
    }
}

/// One step in front.
pub proof fn lemma_closer_one(x: int, d: Seq<int>, h: int)
    ensures
        closer(seq![x] + d, h) == if h + x == 0 {
            0
        } else {
            1 + closer(d, h + x)
        },
{
    assert((seq![x] + d).drop_first() =~= d);
    assert((seq![x] + d)[0] == x);
}

/// A loop with only zero steps inside, in front, shifts what [`closer`]
/// finds.
pub proof fn lemma_closer_loop(z: Seq<int>, d: Seq<int>, h: int)
    requires
        h >= 1,
        forall|k: int| 0 <= k < z.len() ==> #[trigger] z[k] == 0,
    ensures
        closer(seq![1int] + z + seq![-1int] + d, h) == z.len() + 2 + closer(d, h),
{
    let whole = seq![1int] + z + seq![-1int] + d;
    assert(whole.drop_first() =~= z + (seq![-1int] + d));
    assert(whole[0] == 1);
    lemma_closer_zeros(z, seq![-1int] + d, h + 1);
    lemma_closer_one(-1, d, h + 1);
}

} // verus!
