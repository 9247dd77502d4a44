//! The preprocessor as a whole, and its comment stripper.

use crate::bfpp::lines::{
    copy_line, directive_at, has_newline, is_directive, line_at, line_end, next_line, skip_space,
};
use crate::bfpp::error::Error;
use crate::bfpp::includes::{is_failure, resolve_includes, resolved, settled, Sources};
use crate::bfpp::repeat::{expand_repeats, expanded, reports};
use crate::chars::{to_chars, to_string};
use vstd::prelude::*;
use vstd::string::*;

verus! {

/// Where the comment of a line starts, looked for from `k` on: at the first
/// `//` or, where `hashes` is set, at the first `#` if that comes earlier. The
/// length of the line where there is no comment.
pub open spec fn cut_from(line: Seq<char>, k: int, hashes: bool) -> nat
    decreases line.len() - k,
{
    if k < 0 || k >= line.len() {
        line.len()
    } else if (k + 1 < line.len() && line[k] == '/' && line[k + 1] == '/') || (hashes && line[k]
        == '#') {
        k as nat
    } else {
        cut_from(line, k + 1, hashes)
    }
}

/// A line without its comment. On an include directive `#` starts no comment.
pub open spec fn stripped_line(line: Seq<char>) -> Seq<char> {
    line.take(cut_from(line, 0, !is_directive(line)) as int)
}

/// The lines of `t` from index `i` on, each without its comment and carriage
/// return, each line feed kept.
pub open spec fn stripped_from(t: Seq<char>, i: int) -> Seq<char>
    decreases
        if i < t.len() {
            t.len() - i
        } else {
            0
        },
{
    if i < 0 || i >= t.len() {
        Seq::empty()
    } else {
        stripped_line(line_at(t, i)) + if has_newline(t, i) {
            seq!['\n']
        } else {
            Seq::empty()
        } + stripped_from(t, next_line(t, i))
    }
}

/// The text without its comments.
pub open spec fn stripped(t: Seq<char>) -> Seq<char> {
    stripped_from(t, 0)
}

/// Finds where the comment of `line` starts.
fn comment_start(line: &[char], hashes: bool) -> (cut: usize)
    ensures
        cut == cut_from(line@, 0, hashes),
        cut <= line.len(),
{
    let mut k: usize = 0;
    while k < line.len()
        invariant
            k <= line.len(),
            cut_from(line@, k as int, hashes) == cut_from(line@, 0, hashes),
        decreases line.len() - k,
    {
        if (line[k] == '/' && k + 1 < line.len() && line[k + 1] == '/') || (hashes && line[k]
            == '#') {
            return k;
        }
        k += 1;
    }
    k
}

/// Whether `line` is an include directive.
pub fn directive(line: &[char]) -> (r: bool)
    ensures
        r == is_directive(line@),
{
    let at = skip_space(line, 0);
    directive_at(line, at)
}

/// Strips the line comments of `text`: on each line, everything from the
/// first `//` or `#` on, but that `#` starts no comment on an include
/// directive. Line feeds stay; a carriage return in front of one goes.
pub fn strip_comments(text: &str) -> (r: String)
    ensures
        r@ == stripped(text@),
{
    let t = to_chars(text);
    let mut out: Vec<char> = Vec::new();
    let mut i: usize = 0;
    assert(out@ + stripped_from(t@, 0) =~= stripped(t@));
    while i < t.len()
        invariant
            i <= t.len(),
            out@ + stripped_from(t@, i as int) == stripped(t@),
        decreases t.len() - i,
    {
        let e = line_end(t.as_slice(), i);
        let line = copy_line(t.as_slice(), i, e);
        let hashes = !directive(line.as_slice());
        let cut = comment_start(line.as_slice(), hashes);
        let ghost stored = out@;
        let mut k: usize = 0;
        while k < cut
            invariant
                k <= cut <= line.len(),
                out@ == stored + line@.take(k as int),
            decreases cut - k,
        {
            out.push(line[k]);
            assert(line@.take(k + 1) == line@.take(k as int).push(line@[k as int]));
            k += 1;
        }
        let newline = e < t.len();
        if newline {
            out.push('\n');
        }
        let next = if newline {
            e + 1
        } else {
            e
        };
        proof {
            let piece = stripped_line(line_at(t@, i as int)) + if has_newline(t@, i as int) {
                seq!['\n']
            } else {
                Seq::empty()
            };
            assert(out@ =~= stored + piece);
            assert(stripped_from(t@, i as int) == piece + stripped_from(t@, next as int));
            assert((stored + piece) + stripped_from(t@, next as int) =~= stored + (piece
                + stripped_from(t@, next as int)));
        }
        i = next;
    }
    proof {
        assert(out@ + stripped_from(t@, i as int) =~= out@);
    }
    to_string(out.as_slice())
}

/// Preprocesses the root file `root`: resolves its includes from `sources`,
/// strips the comments of the result, and expands the `@repeat` macros of
/// what is left. Fails with the first failure of the first stage that fails.
pub fn preprocess(sources: &Sources, root: &str) -> (r: Result<String, Error>)
    ensures
        match settled(resolved(*sources, root@)) {
            Err(f) => r matches Err(e) && is_failure(e, f),
            Ok(text) => match expanded(stripped(text)) {
                Err(f) => r matches Err(e) && reports(e, f, stripped(text)),
                Ok(out) => r matches Ok(t) && t@ == out,
            },
        },
{
    let text = match resolve_includes(sources, root) {
        Ok(text) => text,
        Err(e) => {
            return Err(e);
        },
    };
    let bare = strip_comments(text.as_str());
    expand_repeats(bare.as_str())
}

} // verus!
