//! Lines of a text: where they end, and what a directive line looks like.

use crate::bfpp::repeat::{is_space, space};
use vstd::prelude::*;
use vstd::string::*;

verus! {

/// How many characters stand between `i` and the next line feed, or the end
/// of the text.
pub open spec fn line_len(t: Seq<char>, i: int) -> nat
    decreases t.len() - i,
{
    if 0 <= i < t.len() && t[i] != '\n' {
        1 + line_len(t, i + 1)
    } else {
        0
    }
}

/// The line that starts at `i`, without its line feed and without one
/// carriage return in front of that.
pub open spec fn line_at(t: Seq<char>, i: int) -> Seq<char> {
    let raw = t.subrange(i, i + line_len(t, i));
    if raw.len() > 0 && raw.last() == '\r' {
        raw.drop_last()
    } else {
        raw
    }
}

/// Whether the line that starts at `i` ends in a line feed.
pub open spec fn has_newline(t: Seq<char>, i: int) -> bool {
    i + line_len(t, i) < t.len()
}

/// Where the line after the one at `i` starts.
pub open spec fn next_line(t: Seq<char>, i: int) -> int {
    if has_newline(t, i) {
        i + line_len(t, i) + 1
    } else {
        i + line_len(t, i)
    }
}

/// How many whitespace characters stand at `i`.
pub open spec fn space_run(t: Seq<char>, i: int) -> nat
    decreases t.len() - i,
{
    if 0 <= i < t.len() && is_space(t[i]) {
        1 + space_run(t, i + 1)
    } else {
        0
    }
}

/// `t` without its leading whitespace.
pub open spec fn trimmed(t: Seq<char>) -> Seq<char> {
    t.skip(space_run(t, 0) as int)
}

/// Whether `word` stands at the start of `t`.
pub open spec fn starts_with(t: Seq<char>, word: Seq<char>) -> bool {
    word.len() <= t.len() && t.take(word.len() as int) == word
}

/// Whether the line is an include directive: `#include` behind any
/// whitespace.
pub open spec fn is_directive(line: Seq<char>) -> bool {
    starts_with(trimmed(line), "#include"@)
}

/// A line stays within the text.
pub proof fn lemma_line_len(t: Seq<char>, i: int)
    requires
        0 <= i <= t.len(),
    ensures
        i + line_len(t, i) <= t.len(),
        has_newline(t, i) ==> t[i + line_len(t, i)] == '\n',
        forall|k: int| i <= k < i + line_len(t, i) ==> #[trigger] t[k] != '\n',
    decreases t.len() - i,
{
    if i < t.len() && t[i] != '\n' {
        lemma_line_len(t, i + 1);
    }
}

/// A run of whitespace stays within the text.
pub proof fn lemma_space_run(t: Seq<char>, i: int)
    requires
        0 <= i <= t.len(),
    ensures
        i + space_run(t, i) <= t.len(),
    decreases t.len() - i,
{
    if i < t.len() && is_space(t[i]) {
        lemma_space_run(t, i + 1);
    }
}

/// Finds the end of the line that starts at `i`.
pub fn line_end(t: &[char], i: usize) -> (e: usize)
    requires
        i <= t.len(),
    ensures
        e == i + line_len(t@, i as int),
        e <= t.len(),
{
    let mut e = i;
    while e < t.len() && t[e] != '\n'
        invariant
            i <= e <= t.len(),
            e + line_len(t@, e as int) == i + line_len(t@, i as int),
        decreases t.len() - e,
    {
        e += 1;
    }
    e
}

/// Copies the line that starts at `i` and ends, at its line feed or at the
/// end of the text, at `e`.
pub fn copy_line(t: &[char], i: usize, e: usize) -> (line: Vec<char>)
    requires
        i <= e <= t.len(),
        e == i + line_len(t@, i as int),
    ensures
        line@ == line_at(t@, i as int),
{
    let stop = if e > i && t[e - 1] == '\r' {
        e - 1
    } else {
        e
    };
    let mut line: Vec<char> = Vec::new();
    let mut k = i;
    while k < stop
        invariant
            i <= k <= stop <= t.len(),
            line@ == t@.subrange(i as int, k as int),
        decreases stop - k,
    {
        line.push(t[k]);
        assert(t@.subrange(i as int, k + 1) == t@.subrange(i as int, k as int).push(t@[k as int]));
        k += 1;
    }
    proof {
        let raw = t@.subrange(i as int, e as int);
        if e > i && t@[e - 1] == '\r' {
            assert(raw.drop_last() =~= t@.subrange(i as int, stop as int));
        }
    }
    line
}

/// Skips whitespace from `i` on, and gives where it ends.
pub fn skip_space(t: &[char], i: usize) -> (e: usize)
    requires
        i <= t.len(),
    ensures
        e == i + space_run(t@, i as int),
        e <= t.len(),
{
    let mut e = i;
    while e < t.len() && space(t[e])
        invariant
            i <= e <= t.len(),
            e + space_run(t@, e as int) == i + space_run(t@, i as int),
        decreases t.len() - e,
    {
        e += 1;
    }
    e
}

/// Whether `#include` stands at `i`.
pub fn directive_at(t: &[char], i: usize) -> (r: bool)
    requires
        i <= t.len(),
    ensures
        r == starts_with(t@.skip(i as int), "#include"@),
{
    proof {
        reveal_strlit("#include");
    }
    if t.len() - i < 8 {
        return false;
    }
    let r = t[i] == '#' && t[i + 1] == 'i' && t[i + 2] == 'n' && t[i + 3] == 'c' && t[i + 4] == 'l'
        && t[i + 5] == 'u' && t[i + 6] == 'd' && t[i + 7] == 'e';
    proof {
        let word = t@.skip(i as int).take(8);
        if r {
            assert(word =~= "#include"@);
        } else {
            if word == "#include"@ {
                assert(word[0] == t@[i as int]);
                assert(word[1] == t@[i + 1]);
                assert(word[2] == t@[i + 2]);
                assert(word[3] == t@[i + 3]);
                assert(word[4] == t@[i + 4]);
                assert(word[5] == t@[i + 5]);
                assert(word[6] == t@[i + 6]);
                assert(word[7] == t@[i + 7]);
            }
        }
    }
    r
}

} // verus!
