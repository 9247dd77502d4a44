//! The include graph, and why a cycle in it is always refused.

use crate::bfpp::includes::{
    body, entered, find_file, find_link, include_target, lemma_closed_shrinks, lemma_found_file, resolved, Content,
    Link, Sources,
};
use crate::bfpp::lines::{
    has_newline, is_directive, lemma_line_len, line_at, line_len, next_line, trimmed,
};
use vstd::prelude::*;

verus! {

/// The text of the file `c`, where the sources hold one.
pub open spec fn text_of(s: Sources, c: Seq<char>) -> Option<Seq<char>> {
    match find_file(s, c, 0) {
        Some(j) => match s.files[j].content {
            Content::Text(t) => Some(t@),
            _ => None,
        },
        None => None,
    }
}

/// The canonical name of the file that the include path `target` leads to
/// from the file `from`, where the sources say that it leads to a file.
pub open spec fn leads_to(s: Sources, from: Seq<char>, target: Seq<char>) -> Option<Seq<char>> {
    match find_link(s, from, target, 0) {
        Some(k) => match s.links[k].link {
            Link::File { path, canonical } => Some(canonical@),
            _ => None,
        },
        None => None,
    }
}

/// The path under which that file is opened.
pub open spec fn opened_as(s: Sources, from: Seq<char>, target: Seq<char>) -> Seq<char> {
    match find_link(s, from, target, 0) {
        Some(k) => match s.links[k].link {
            Link::File { path, canonical } => path@,
            _ => Seq::empty(),
        },
        None => Seq::empty(),
    }
}

/// Whether a line starts at `i`.
pub open spec fn line_start(t: Seq<char>, i: int) -> bool {
    0 <= i < t.len() && (i == 0 || t[i - 1] == '\n')
}

/// Whether the line at `i` of the file `c` is a directive that includes the
/// file `b`.
pub open spec fn includes_at(s: Sources, c: Seq<char>, i: int, b: Seq<char>) -> bool {
    &&& text_of(s, c) is Some
    &&& line_start(text_of(s, c)->0, i)
    &&& is_directive(line_at(text_of(s, c)->0, i))
    &&& include_target(trimmed(line_at(text_of(s, c)->0, i))) is Some
    &&& leads_to(s, c, include_target(trimmed(line_at(text_of(s, c)->0, i)))->0) is Some
    &&& leads_to(s, c, include_target(trimmed(line_at(text_of(s, c)->0, i)))->0)->0 == b
}

/// Whether the file `c` includes the file `b`.
pub open spec fn includes(s: Sources, c: Seq<char>, b: Seq<char>) -> bool {
    exists|i: int| includes_at(s, c, i, b)
}

/// Whether each file of `w` includes the next.
pub open spec fn is_walk(s: Sources, w: Seq<Seq<char>>) -> bool {
    forall|k: int| 0 <= k < w.len() - 1 ==> includes(s, #[trigger] w[k], w[k + 1])
}

/// A file that was entered with success was not open, has a text, and that
/// text was resolved with success.
proof fn lemma_entered_done(
    s: Sources,
    path: Seq<char>,
    from: Seq<char>,
    target: Seq<char>,
    stack: Seq<Seq<char>>,
)
    requires
        entered(s, path, from, target, stack) is Done,
    ensures
        leads_to(s, from, target) is Some,
        !stack.contains(leads_to(s, from, target)->0),
        text_of(s, leads_to(s, from, target)->0) is Some,
        body(
            s,
            text_of(s, leads_to(s, from, target)->0)->0,
            0,
            opened_as(s, from, target),
            leads_to(s, from, target)->0,
            stack.push(leads_to(s, from, target)->0),
        ) is Done,
{
    let k = find_link(s, from, target, 0)->0;
    let c = leads_to(s, from, target)->0;
    let j = find_file(s, c, 0)->0;
    lemma_found_file(s, c, 0);
    lemma_closed_shrinks(s, stack, c, j);
}

/// Where the lines from `i` on were resolved with success, so were the lines
/// from any later line start on, and the include of any directive among them.
proof fn lemma_body_done(
    s: Sources,
    t: Seq<char>,
    i: int,
    at: int,
    path: Seq<char>,
    c: Seq<char>,
    stack: Seq<Seq<char>>,
)
    requires
        line_start(t, i),
        line_start(t, at),
        i <= at,
        body(s, t, i, path, c, stack) is Done,
    ensures
        body(s, t, at, path, c, stack) is Done,
        is_directive(line_at(t, at)) ==> include_target(trimmed(line_at(t, at))) is Some && entered(
            s,
            path,
            c,
            include_target(trimmed(line_at(t, at)))->0,
            stack,
        ) is Done,
    decreases at - i,
{
    if i < at {
        lemma_line_len(t, i);
        let n = line_len(t, i) as int;
        if at - 1 < i + n {
            assert(t[at - 1] != '\n');
        }
        assert(has_newline(t, i));
        assert(next_line(t, i) == i + n + 1);
        assert(body(s, t, next_line(t, i), path, c, stack) is Done);
        assert(t[next_line(t, i) - 1] == '\n');
        lemma_body_done(s, t, next_line(t, i), at, path, c, stack);
    }
}

/// On a walk from a file that was entered with success, no file is open
/// already, and no file comes twice.
proof fn lemma_walk_fresh(
    s: Sources,
    path: Seq<char>,
    from: Seq<char>,
    target: Seq<char>,
    stack: Seq<Seq<char>>,
    w: Seq<Seq<char>>,
)
    requires
        entered(s, path, from, target, stack) is Done,
        is_walk(s, w),
        w.len() >= 1,
        leads_to(s, from, target) is Some ==> w[0] == leads_to(s, from, target)->0,
    ensures
        forall|k: int| 0 <= k < w.len() ==> !stack.contains(#[trigger] w[k]),
        forall|a: int, b: int| 0 <= a < b < w.len() ==> w[a] != w[b],
    decreases w.len(),
{
    lemma_entered_done(s, path, from, target, stack);
    let c = w[0];
    let opened = opened_as(s, from, target);
    let inner = stack.push(c);
    assert(inner[stack.len() as int] == c);
    if w.len() >= 2 {
        let rest = w.skip(1);
        assert(includes(s, w[0], w[0int + 1]));
        let i = choose|i: int| includes_at(s, c, i, w[1]);
        let t = text_of(s, c)->0;
        lemma_body_done(s, t, 0, i, opened, c, inner);
        let tau = include_target(trimmed(line_at(t, i)))->0;
        assert(is_walk(s, rest)) by {
            assert forall|k: int| 0 <= k < rest.len() - 1 implies includes(
                s,
                #[trigger] rest[k],
                rest[k + 1],
            ) by {
                assert(includes(s, w[k + 1], w[k + 1 + 1]));
            }
        }
        lemma_walk_fresh(s, opened, c, tau, inner, rest);
        assert forall|k: int| 0 <= k < w.len() implies !stack.contains(#[trigger] w[k]) by {
            if k >= 1 {
                assert(!inner.contains(rest[k - 1]));
                if stack.contains(w[k]) {
                    let x = choose|x: int| 0 <= x < stack.len() && stack[x] == w[k];
                    assert(inner[x] == w[k]);
                }
            }
        }
        assert forall|a: int, b: int| 0 <= a < b < w.len() implies w[a] != w[b] by {
            if a >= 1 {
                assert(rest[a - 1] != rest[b - 1]);
            } else {
                assert(!inner.contains(rest[b - 1]));
            }
        }
    }
}

/// A cycle among the includes is refused: where a walk along the includes
/// from the root file comes to one file twice, the resolution does not
/// succeed.
pub proof fn lemma_cycle_refused(s: Sources, root: Seq<char>, w: Seq<Seq<char>>, a: int, b: int)
    requires
        leads_to(s, Seq::empty(), root) is Some,
        is_walk(s, w),
        0 <= a < b < w.len(),
        w[0] == leads_to(s, Seq::empty(), root)->0,
        w[a] == w[b],
    ensures
        !(resolved(s, root) is Done),
{
    if resolved(s, root) is Done {
        lemma_walk_fresh(s, Seq::empty(), Seq::empty(), root, Seq::empty(), w);
    }
}

} // verus!
