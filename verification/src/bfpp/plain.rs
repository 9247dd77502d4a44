//! Plain source: text without directives, comments and macros, which the
//! preprocessor hands on as it is.

use crate::bfpp::driver::{cut_from, stripped, stripped_from};
use crate::bfpp::includes::{
    body, find_file, find_link, lemma_closed_shrinks, line_feed, resolved, settled, Failure,
    Outcome, Sources,
};
use crate::bfpp::lines::{
    has_newline, is_directive, lemma_line_len, lemma_space_run, line_at, line_len, next_line,
    space_run, starts_with, trimmed,
};
use crate::bfpp::repeat::{expanded, has_keyword, section, RepeatFault};
use vstd::prelude::*;
use vstd::string::*;

verus! {

/// Whether the text has no `#`, no `//` and no `@repeat`: no directive, no
/// comment, no macro.
pub open spec fn plain(t: Seq<char>) -> bool {
    &&& forall|k: int| 0 <= k < t.len() ==> #[trigger] t[k] != '#'
    &&& forall|k: int| 0 <= k < t.len() - 1 ==> !(#[trigger] t[k] == '/' && t[k + 1] == '/')
    &&& forall|k: int| !has_keyword(t, k)
}

/// Whether the text has no carriage return.
pub open spec fn unix(t: Seq<char>) -> bool {
    forall|k: int| 0 <= k < t.len() ==> #[trigger] t[k] != '\r'
}

/// The lines of `t` from index `i` on, each without the carriage return in
/// front of its line feed.
pub open spec fn normalized_from(t: Seq<char>, i: int) -> Seq<char>
    decreases
        if i < t.len() {
            t.len() - i
        } else {
            0
        },
{
    if i < 0 || i >= t.len() {
        Seq::empty()
    } else {
        line_at(t, i) + line_feed(has_newline(t, i)) + normalized_from(t, next_line(t, i))
    }
}

/// The text with its line endings normalized to a line feed.
pub open spec fn normalized(t: Seq<char>) -> Seq<char> {
    normalized_from(t, 0)
}

/// Without carriage returns there is nothing to normalize.
pub proof fn lemma_normalized_unix(t: Seq<char>, i: int)
    requires
        0 <= i <= t.len(),
        unix(t),
    ensures
        normalized_from(t, i) == t.skip(i),
    decreases t.len() - i,
{
    if i < t.len() {
        lemma_line_len(t, i);
        let n = line_len(t, i) as int;
        let next = next_line(t, i);
        lemma_normalized_unix(t, next);
        let raw = t.subrange(i, i + n);
        if raw.len() > 0 {
            assert(raw.last() == t[i + n - 1]);
        }
        assert(line_at(t, i) == raw);
        assert(raw + line_feed(has_newline(t, i)) + t.skip(next) =~= t.skip(i));
    } else {
        assert(t.skip(i) =~= Seq::<char>::empty());
    }
}

/// A line without `#` is no directive.
proof fn lemma_no_directive(line: Seq<char>)
    requires
        forall|k: int| 0 <= k < line.len() ==> #[trigger] line[k] != '#',
    ensures
        !is_directive(line),
{
    reveal_strlit("#include");
    lemma_space_run(line, 0);
    let at = space_run(line, 0) as int;
    let rest = trimmed(line);
    if starts_with(rest, "#include"@) {
        assert(rest.take(8)[0] == '#');
        assert(rest[0] == line[at]);
    }
}

/// The characters of a line are characters of the text.
proof fn lemma_line_chars(t: Seq<char>, i: int)
    requires
        0 <= i < t.len(),
    ensures
        line_at(t, i).len() <= line_len(t, i),
        i + line_len(t, i) <= t.len(),
        forall|k: int| 0 <= k < line_at(t, i).len() ==> #[trigger] line_at(t, i)[k] == t[i + k],
{
    lemma_line_len(t, i);
}

/// Resolving a text without `#` only normalizes its line endings.
pub proof fn lemma_body_plain(
    s: Sources,
    t: Seq<char>,
    i: int,
    path: Seq<char>,
    canonical: Seq<char>,
    stack: Seq<Seq<char>>,
)
    requires
        0 <= i <= t.len(),
        forall|k: int| 0 <= k < t.len() ==> #[trigger] t[k] != '#',
    ensures
        body(s, t, i, path, canonical, stack) == Outcome::Done(normalized_from(t, i)),
    decreases t.len() - i,
{
    if i < t.len() {
        lemma_line_chars(t, i);
        let line = line_at(t, i);
        assert forall|k: int| 0 <= k < line.len() implies #[trigger] line[k] != '#' by {
            assert(line[k] == t[i + k]);
        }
        lemma_no_directive(line);
        lemma_body_plain(s, t, next_line(t, i), path, canonical, stack);
    }
}

/// A line without comment is cut nowhere.
proof fn lemma_no_cut(line: Seq<char>, k: int, hashes: bool)
    requires
        0 <= k <= line.len(),
        forall|m: int| 0 <= m < line.len() ==> #[trigger] line[m] != '#',
        forall|m: int| 0 <= m < line.len() - 1 ==> !(#[trigger] line[m] == '/' && line[m + 1] == '/'),
    ensures
        cut_from(line, k, hashes) == line.len(),
    decreases line.len() - k,
{
    if k < line.len() {
        lemma_no_cut(line, k + 1, hashes);
    }
}

/// Stripping a text without comments only normalizes its line endings.
pub proof fn lemma_stripped_plain(t: Seq<char>, i: int)
    requires
        0 <= i <= t.len(),
        forall|k: int| 0 <= k < t.len() ==> #[trigger] t[k] != '#',
        forall|k: int| 0 <= k < t.len() - 1 ==> !(#[trigger] t[k] == '/' && t[k + 1] == '/'),
    ensures
        stripped_from(t, i) == normalized_from(t, i),
    decreases t.len() - i,
{
    if i < t.len() {
        lemma_line_chars(t, i);
        let line = line_at(t, i);
        assert forall|k: int| 0 <= k < line.len() implies #[trigger] line[k] != '#' by {
            assert(line[k] == t[i + k]);
        }
        assert forall|k: int| 0 <= k < line.len() - 1 implies !(#[trigger] line[k] == '/' && line[k
            + 1] == '/') by {
            assert(line[k] == t[i + k]);
            assert(line[k + 1] == t[i + k + 1]);
        }
        lemma_no_cut(line, 0, !is_directive(line));
        assert(line.take(line.len() as int) =~= line);
        lemma_stripped_plain(t, next_line(t, i));
    }
}

/// Expanding a text without macros changes nothing.
pub proof fn lemma_section_plain(t: Seq<char>, i: int)
    requires
        0 <= i <= t.len(),
        forall|k: int| !has_keyword(t, k),
    ensures
        section(t, i, None) == Ok::<(Seq<char>, nat), RepeatFault>(
            (t.skip(i), (t.len() - i) as nat),
        ),
    decreases t.len() - i,
{
    if i < t.len() {
        lemma_section_plain(t, i + 1);
        assert(seq![t[i]] + t.skip(i + 1) =~= t.skip(i));
    } else {
        assert(t.skip(i) =~= Seq::<char>::empty());
    }
}

/// A stretch of normalized text without a line feed is a stretch of the
/// text it was normalized from.
proof fn lemma_window(t: Seq<char>, i: int, j: int, w: int) -> (k: int)
    requires
        0 <= i <= t.len(),
        0 <= j,
        1 <= w,
        j + w <= normalized_from(t, i).len(),
        forall|x: int| j <= x < j + w ==> #[trigger] normalized_from(t, i)[x] != '\n',
    ensures
        i <= k,
        k + w <= t.len(),
        t.subrange(k, k + w) == normalized_from(t, i).subrange(j, j + w),
    decreases t.len() - i,
{
    let u = normalized_from(t, i);
    lemma_line_chars(t, i);
    let line = line_at(t, i);
    let feed = line_feed(has_newline(t, i));
    let rest = normalized_from(t, next_line(t, i));
    assert(u == line + feed + rest);
    if j + w <= line.len() {
        let from_t = t.subrange(i + j, i + j + w);
        let from_u = u.subrange(j, j + w);
        assert(from_t =~= from_u) by {
            assert forall|x: int| 0 <= x < w implies #[trigger] from_t[x] == from_u[x] by {
                assert(u[j + x] == line[j + x]);
            }
        }
        i + j
    } else if j >= line.len() + feed.len() {
        let back = line.len() + feed.len();
        assert forall|x: int| j - back <= x < j - back + w implies #[trigger] rest[x] != '\n' by {
            assert(u[x + back] == rest[x]);
        }
        let k = lemma_window(t, next_line(t, i), j - back, w);
        assert(rest.subrange(j - back, j - back + w) =~= u.subrange(j, j + w));
        k
    } else {
        if feed.len() > 0 {
            assert(u[line.len() as int] == '\n');
        } else {
            assert(rest.len() == 0);
        }
        0
    }
}

/// Normalizing the line endings of a plain text leaves it plain.
pub proof fn lemma_normalized_plain(t: Seq<char>)
    requires
        plain(t),
    ensures
        plain(normalized(t)),
{
    let u = normalized(t);
    assert forall|j: int| 0 <= j < u.len() implies #[trigger] u[j] != '#' by {
        if u[j] == '#' {
            let k = lemma_window(t, 0, j, 1);
            assert(t.subrange(k, k + 1)[0] == u.subrange(j, j + 1)[0]);
            assert(t[k] == '#');
        }
    }
    assert forall|j: int| 0 <= j < u.len() - 1 implies !(#[trigger] u[j] == '/' && u[j + 1]
        == '/') by {
        if u[j] == '/' && u[j + 1] == '/' {
            let k = lemma_window(t, 0, j, 2);
            assert(t.subrange(k, k + 2)[0] == u.subrange(j, j + 2)[0]);
            assert(t.subrange(k, k + 2)[1] == u.subrange(j, j + 2)[1]);
            assert(t[k] == '/' && t[k + 1] == '/');
        }
    }
    assert forall|j: int| !has_keyword(u, j) by {
        if has_keyword(u, j) {
            reveal_strlit("@repeat");
            let word = u.subrange(j, j + 7);
            assert forall|x: int| j <= x < j + 7 implies #[trigger] u[x] != '\n' by {
                assert(u[x] == word[x - j]);
            }
            let k = lemma_window(t, 0, j, 7);
            assert(has_keyword(t, k));
        }
    }
}

/// Plain source passes through the preprocessor with nothing but its line
/// endings changed: where the root file is found and its text is plain, the
/// includes stage normalizes the line endings, the comments stage normalizes
/// them once more, and the macro stage changes nothing.
pub proof fn lemma_plain_normalizes(s: Sources, root: Seq<char>, k: int, j: int)
    requires
        find_link(s, Seq::empty(), root, 0) == Some(k),
        s.links[k].link is File,
        find_file(s, s.links[k].link->canonical@, 0) == Some(j),
        0 <= j < s.files.len(),
        s.files[j].canonical@ == s.links[k].link->canonical@,
        s.files[j].content is Text,
        plain(s.files[j].content->Text_0@),
    ensures
        settled(resolved(s, root)) == Ok::<Seq<char>, Failure>(
            normalized(s.files[j].content->Text_0@),
        ),
        stripped(normalized(s.files[j].content->Text_0@)) == normalized(
            normalized(s.files[j].content->Text_0@),
        ),
        expanded(normalized(normalized(s.files[j].content->Text_0@))) == Ok::<
            Seq<char>,
            RepeatFault,
        >(normalized(normalized(s.files[j].content->Text_0@))),
{
    let t = s.files[j].content->Text_0@;
    let canonical = s.links[k].link->canonical@;
    let path = s.links[k].link->File_path@;
    let none = Seq::<Seq<char>>::empty();
    lemma_closed_shrinks(s, none, canonical, j);
    lemma_body_plain(s, t, 0, path, canonical, none.push(canonical));
    let u = normalized(t);
    lemma_normalized_plain(t);
    lemma_stripped_plain(u, 0);
    let w = normalized(u);
    lemma_normalized_plain(u);
    lemma_section_plain(w, 0);
    assert(w.skip(0) =~= w);
}

/// Plain source passes through the preprocessor unchanged: where the root
/// file is found and its text is plain and has no carriage return, every
/// stage hands the text on as it is.
pub proof fn lemma_plain_passes(s: Sources, root: Seq<char>, k: int, j: int)
    requires
        find_link(s, Seq::empty(), root, 0) == Some(k),
        s.links[k].link is File,
        find_file(s, s.links[k].link->canonical@, 0) == Some(j),
        0 <= j < s.files.len(),
        s.files[j].canonical@ == s.links[k].link->canonical@,
        s.files[j].content is Text,
        plain(s.files[j].content->Text_0@),
        unix(s.files[j].content->Text_0@),
    ensures
        settled(resolved(s, root)) == Ok::<Seq<char>, Failure>(s.files[j].content->Text_0@),
        stripped(s.files[j].content->Text_0@) == s.files[j].content->Text_0@,
        expanded(s.files[j].content->Text_0@) == Ok::<Seq<char>, RepeatFault>(
            s.files[j].content->Text_0@,
        ),
{
    let t = s.files[j].content->Text_0@;
    let canonical = s.links[k].link->canonical@;
    let path = s.links[k].link->File_path@;
    let none = Seq::<Seq<char>>::empty();
    lemma_closed_shrinks(s, none, canonical, j);
    lemma_body_plain(s, t, 0, path, canonical, none.push(canonical));
    lemma_normalized_unix(t, 0);
    assert(t.skip(0) =~= t);
    lemma_stripped_plain(t, 0);
    lemma_section_plain(t, 0);
}

} // verus!
