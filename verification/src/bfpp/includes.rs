//! Include resolution: `#include "PATH"` directives are replaced by the text
//! of the file they name, recursively, and cycles are refused.
//!
//! The file system stays outside. What it has to say is handed in as
//! [`Sources`]: which file an include path leads to from which file, and what
//! each file holds.

use crate::bfpp::error::Error;
use crate::bfpp::lines::{
    copy_line, directive_at, has_newline, is_directive, line_at, line_end, next_line, skip_space,
    space_run, starts_with, trimmed,
};
use crate::chars::{to_chars, to_string};
use vstd::prelude::*;
use vstd::slice::slice_subrange;
use vstd::string::*;

verus! {

/// How many characters stand between `i` and the next double quote, or the
/// end of the line.
pub open spec fn quoted_run(line: Seq<char>, i: int) -> nat
    decreases line.len() - i,
{
    if 0 <= i < line.len() && line[i] != '"' {
        1 + quoted_run(line, i + 1)
    } else {
        0
    }
}

/// Whether a comment starts at `i`: `//` or `#`.
pub open spec fn comment_at(line: Seq<char>, i: int) -> bool {
    0 <= i < line.len() && (line[i] == '#' || (i + 1 < line.len() && line[i] == '/' && line[i
        + 1] == '/'))
}

/// The path that a directive names. `line` starts with `#include`; behind
/// that come, each after optional whitespace, the path in double quotes, not
/// empty, and then nothing or a comment. Nothing for any other line.
pub open spec fn include_target(line: Seq<char>) -> Option<Seq<char>> {
    let open: int = 8 + space_run(line, 8) as int;
    let first: int = open + 1;
    let n: int = quoted_run(line, first) as int;
    let tail: int = first + n + 1 + space_run(line, first + n + 1) as int;
    if open >= line.len() || line[open] != '"' {
        None
    } else if first + n >= line.len() {
        None
    } else if n == 0 {
        None
    } else if tail < line.len() && !comment_at(line, tail) {
        None
    } else {
        Some(line.subrange(first, first + n))
    }
}

/// The message for a directive that is not well formed.
pub open spec fn invalid_syntax_text() -> Seq<char> {
    "invalid include syntax"@
}

/// The message for an include path that is absolute.
pub open spec fn absolute_text() -> Seq<char> {
    "include path must be relative"@
}

/// The error for a malformed directive in the file `path`.
fn invalid_syntax(path: &str) -> (e: Error)
    ensures
        e matches Error::IncludeError { path: p, message } && p@ == path@ && message@
            == invalid_syntax_text(),
{
    Error::IncludeError {
        path: String::from_str(path),
        message: String::from_str("invalid include syntax"),
    }
}

/// Reads the path out of an include directive. `line` is the directive from
/// `#include` on; `path` names the file it stands in, for the error.
pub fn parse_include_path(line: &[char], path: &str) -> (r: Result<Vec<char>, Error>)
    requires
        starts_with(line@, "#include"@),
    ensures
        match include_target(line@) {
            Some(target) => r matches Ok(v) && v@ == target,
            None => r matches Err(Error::IncludeError { path: p, message }) && p@ == path@
                && message@ == invalid_syntax_text(),
        },
{
    proof {
        reveal_strlit("#include");
    }
    let open = skip_space(line, 8);
    if open >= line.len() || line[open] != '"' {
        return Err(invalid_syntax(path));
    }
    let first = open + 1;
    let mut end = first;
    while end < line.len() && line[end] != '"'
        invariant
            first <= end <= line.len(),
            end + quoted_run(line@, end as int) == first + quoted_run(line@, first as int),
        decreases line.len() - end,
    {
        end += 1;
    }
    if end >= line.len() {
        return Err(invalid_syntax(path));
    }
    if end == first {
        return Err(invalid_syntax(path));
    }
    let tail = skip_space(line, end + 1);
    if tail < line.len() {
        let comment = line[tail] == '#' || (line[tail] == '/' && tail + 1 < line.len() && line[tail
            + 1] == '/');
        if !comment {
            return Err(invalid_syntax(path));
        }
    }
    let target = slice_subrange(line, first, end);
    let mut v: Vec<char> = Vec::new();
    let mut k: usize = 0;
    while k < target.len()
        invariant
            k <= target.len(),
            v@ == target@.take(k as int),
        decreases target.len() - k,
    {
        v.push(target[k]);
        assert(target@.take(k + 1) == target@.take(k as int).push(target@[k as int]));
        k += 1;
    }
    assert(target@.take(k as int) == target@);
    Ok(v)
}

/// Where an include path leads.
pub enum Link {
    /// The path is absolute, and so refused.
    Absolute,
    /// The file could not be found; `path` is the path tried.
    Unresolved { path: String, source: String },
    /// The file at `path`, whose canonical name is `canonical`.
    File { path: String, canonical: String },
}

/// What a file holds.
pub enum Content {
    /// The file could not be read.
    Unreadable { source: String },
    /// The file is not UTF-8.
    InvalidUtf8,
    /// The text of the file.
    Text(String),
}

/// Where the include path `target` leads from the file `from`. The root file
/// is looked up from the empty name.
pub struct LinkEntry {
    pub from: String,
    pub target: String,
    pub link: Link,
}

/// What the file with the canonical name `canonical` holds.
pub struct FileEntry {
    pub canonical: String,
    pub content: Content,
}

/// What is known of the file system. Of two entries for the same thing the
/// first counts.
pub struct Sources {
    pub links: Vec<LinkEntry>,
    pub files: Vec<FileEntry>,
}

/// How a resolution ended.
pub enum Resolution {
    /// The text with every include spliced in.
    Done(String),
    /// The first failure.
    Failed(Error),
    /// The sources do not say where `target` leads from the file `from`,
    /// which was opened as `path`.
    NeedLink { path: String, from: String, target: String },
    /// The sources do not say what the file `canonical` holds.
    NeedFile { canonical: String },
}

/// A failure, as a mathematical value.
pub enum Failure {
    Read { path: Seq<char>, source: Seq<char> },
    InvalidUtf8 { path: Seq<char> },
    Include { path: Seq<char>, message: Seq<char> },
}

/// How a resolution ends, as a mathematical value.
pub enum Outcome {
    Done(Seq<char>),
    Failed(Failure),
    NeedLink { path: Seq<char>, from: Seq<char>, target: Seq<char> },
    NeedFile { canonical: Seq<char> },
}

/// The first link entry from index `k` on for `target` as seen from `from`.
pub open spec fn find_link(s: Sources, from: Seq<char>, target: Seq<char>, k: int) -> Option<int>
    decreases s.links.len() - k,
{
    if k < 0 || k >= s.links.len() {
        None
    } else if s.links[k].from@ == from && s.links[k].target@ == target {
        Some(k)
    } else {
        find_link(s, from, target, k + 1)
    }
}

/// The first file entry from index `k` on for `canonical`.
pub open spec fn find_file(s: Sources, canonical: Seq<char>, k: int) -> Option<int>
    decreases s.files.len() - k,
{
    if k < 0 || k >= s.files.len() {
        None
    } else if s.files[k].canonical@ == canonical {
        Some(k)
    } else {
        find_file(s, canonical, k + 1)
    }
}

/// The file entries whose file is not open.
pub open spec fn closed(s: Sources, stack: Seq<Seq<char>>) -> Set<int> {
    Set::new(|k: int| 0 <= k < s.files.len() && !stack.contains(s.files[k].canonical@))
}

/// The names of a chain of files, each followed by an arrow.
pub open spec fn chain(names: Seq<Seq<char>>) -> Seq<char>
    decreases names.len(),
{
    if names.len() == 0 {
        Seq::empty()
    } else {
        chain(names.drop_last()) + names.last() + " -> "@
    }
}

/// The message for an include of `canonical`, which is open already: the
/// chain of open files from it on, and it again.
pub open spec fn cycle_text(stack: Seq<Seq<char>>, canonical: Seq<char>) -> Seq<char> {
    "include cycle: "@ + chain(stack.skip(position_of(stack, canonical, 0))) + canonical
}

/// The first index from `k` on at which `name` stands in `stack`; the length
/// of `stack` where it stands nowhere.
pub open spec fn position_of(stack: Seq<Seq<char>>, name: Seq<char>, k: int) -> int
    decreases stack.len() - k,
{
    if k < 0 || k >= stack.len() {
        stack.len() as int
    } else if stack[k] == name {
        k
    } else {
        position_of(stack, name, k + 1)
    }
}

/// `head` in front of the text that a resolution gave.
pub open spec fn splice(head: Seq<char>, rest: Outcome) -> Outcome {
    match rest {
        Outcome::Done(tail) => Outcome::Done(head + tail),
        other => other,
    }
}

/// One line feed where `newline` is set, else nothing.
pub open spec fn line_feed(newline: bool) -> Seq<char> {
    if newline {
        seq!['\n']
    } else {
        Seq::empty()
    }
}

/// Whether `text` ends in a line feed.
pub open spec fn ends_in_newline(text: Seq<char>) -> bool {
    text.len() > 0 && text.last() == '\n'
}

/// The resolution of the include of `target` in the file that was opened as
/// `path` and is canonically `from`, while the files of `stack` are open.
pub open spec fn entered(
    s: Sources,
    path: Seq<char>,
    from: Seq<char>,
    target: Seq<char>,
    stack: Seq<Seq<char>>,
) -> Outcome
    decreases closed(s, stack).len(), 0nat, 0nat,
{
    match find_link(s, from, target, 0) {
        None => Outcome::NeedLink { path, from, target },
        Some(k) => match s.links[k].link {
            Link::Absolute => Outcome::Failed(Failure::Include { path, message: absolute_text() }),
            Link::Unresolved { path: tried, source } => Outcome::Failed(
                Failure::Read { path: tried@, source: source@ },
            ),
            Link::File { path: opened, canonical } => {
                if stack.contains(canonical@) {
                    Outcome::Failed(
                        Failure::Include {
                            path: opened@,
                            message: cycle_text(stack, canonical@),
                        },
                    )
                } else {
                    match find_file(s, canonical@, 0) {
                        None => Outcome::NeedFile { canonical: canonical@ },
                        Some(j) => match s.files[j].content {
                            Content::Unreadable { source } => Outcome::Failed(
                                Failure::Read { path: opened@, source: source@ },
                            ),
                            Content::InvalidUtf8 => Outcome::Failed(
                                Failure::InvalidUtf8 { path: opened@ },
                            ),
                            Content::Text(text) => {
                                proof {
                                    lemma_found_file(s, canonical@, 0);
                                    lemma_closed_shrinks(s, stack, canonical@, j);
                                }
                                body(s, text@, 0, opened@, canonical@, stack.push(canonical@))
                            },
                        },
                    }
                }
            },
        },
    }
}

/// The resolution of the lines of `t` from index `i` on; `t` is the text of
/// the file opened as `path`, canonically `canonical`, which is the last of
/// the open files `stack`.
pub open spec fn body(
    s: Sources,
    t: Seq<char>,
    i: int,
    path: Seq<char>,
    canonical: Seq<char>,
    stack: Seq<Seq<char>>,
) -> Outcome
    decreases closed(s, stack).len(), 1nat,
        if i < t.len() {
            (t.len() - i) as nat
        } else {
            0nat
        },
{
    if i < 0 || i >= t.len() {
        Outcome::Done(Seq::empty())
    } else {
        let line = line_at(t, i);
        let newline = has_newline(t, i);
        if is_directive(line) {
            match include_target(trimmed(line)) {
                None => Outcome::Failed(
                    Failure::Include { path, message: invalid_syntax_text() },
                ),
                Some(target) => match entered(s, path, canonical, target, stack) {
                    Outcome::Done(text) => splice(
                        text + line_feed(newline && !ends_in_newline(text)),
                        body(s, t, next_line(t, i), path, canonical, stack),
                    ),
                    other => other,
                },
            }
        } else {
            splice(line + line_feed(newline), body(s, t, next_line(t, i), path, canonical, stack))
        }
    }
}

/// The resolution of the root file `root`.
pub open spec fn resolved(s: Sources, root: Seq<char>) -> Outcome {
    entered(s, Seq::empty(), Seq::empty(), root, Seq::empty())
}

/// The names held by a stack of open files.
pub open spec fn names(stack: Seq<String>) -> Seq<Seq<char>> {
    stack.map_values(|name: String| name@)
}

/// Whether the error `e` is the failure `f`.
pub open spec fn is_failure(e: Error, f: Failure) -> bool {
    match f {
        Failure::Read { path, source } => e matches Error::ReadFailed { path: p, source: c }
            && p@ == path && c@ == source,
        Failure::InvalidUtf8 { path } => e matches Error::InvalidUtf8 { path: p } && p@ == path,
        Failure::Include { path, message } => e matches Error::IncludeError {
            path: p,
            message: m,
        } && p@ == path && m@ == message,
    }
}

/// Whether the resolution `r` is the outcome `o`.
pub open spec fn shows(r: Resolution, o: Outcome) -> bool {
    match o {
        Outcome::Done(text) => r matches Resolution::Done(t) && t@ == text,
        Outcome::Failed(f) => r matches Resolution::Failed(e) && is_failure(e, f),
        Outcome::NeedLink { path, from, target } => r matches Resolution::NeedLink {
            path: p,
            from: a,
            target: b,
        } && p@ == path && a@ == from && b@ == target,
        Outcome::NeedFile { canonical } => r matches Resolution::NeedFile { canonical: c } && c@
            == canonical,
    }
}

/// A file entry that was found is an entry for the file looked for.
pub proof fn lemma_found_file(s: Sources, c: Seq<char>, k: int)
    requires
        0 <= k,
        find_file(s, c, k) is Some,
    ensures
        k <= find_file(s, c, k)->0 < s.files.len(),
        s.files[find_file(s, c, k)->0].canonical@ == c,
    decreases s.files.len() - k,
{
    if k < s.files.len() && s.files[k].canonical@ != c {
        lemma_found_file(s, c, k + 1);
    }
}

/// Opening one more file leaves fewer files closed.
pub proof fn lemma_closed_shrinks(s: Sources, stack: Seq<Seq<char>>, name: Seq<char>, j: int)
    requires
        !stack.contains(name),
        0 <= j < s.files.len(),
        s.files[j].canonical@ == name,
    ensures
        closed(s, stack).finite(),
        closed(s, stack.push(name)).len() < closed(s, stack).len(),
{
    let all = vstd::set_lib::set_int_range(0, s.files.len() as int);
    vstd::set_lib::lemma_int_range(0, s.files.len() as int);
    let before = closed(s, stack);
    let after = closed(s, stack.push(name));
    assert(before.subset_of(all));
    vstd::set_lib::lemma_len_subset(before, all);
    assert(before.contains(j));
    assert(stack.push(name)[stack.len() as int] == name);
    assert(!after.contains(j));
    assert forall|k: int| after.contains(k) implies before.remove(j).contains(k) by {
        if stack.contains(s.files[k].canonical@) {
            let x = choose|x: int| 0 <= x < stack.len() && stack[x] == s.files[k].canonical@;
            assert(stack.push(name)[x] == s.files[k].canonical@);
        }
    }
    assert(after.subset_of(before.remove(j)));
    vstd::set::axiom_set_remove_finite(before, j);
    vstd::set::axiom_set_remove_len(before, j);
    vstd::set_lib::lemma_len_subset(after, before.remove(j));
}

/// Finds the link entry for `target` as seen from `from`.
fn find_link_entry(s: &Sources, from: &String, target: &String) -> (r: Option<usize>)
    ensures
        match find_link(*s, from@, target@, 0) {
            Some(k) => r == Some(k as usize) && 0 <= k < s.links.len(),
            None => r is None,
        },
{
    let mut k: usize = 0;
    while k < s.links.len()
        invariant
            k <= s.links.len(),
            find_link(*s, from@, target@, k as int) == find_link(*s, from@, target@, 0),
        decreases s.links.len() - k,
    {
        if s.links[k].from == *from && s.links[k].target == *target {
            return Some(k);
        }
        k += 1;
    }
    None
}

/// Finds the file entry for `canonical`.
fn find_file_entry(s: &Sources, canonical: &String) -> (r: Option<usize>)
    ensures
        match find_file(*s, canonical@, 0) {
            Some(k) => r == Some(k as usize) && 0 <= k < s.files.len() && s.files[k].canonical@
                == canonical@,
            None => r is None,
        },
{
    let mut k: usize = 0;
    while k < s.files.len()
        invariant
            k <= s.files.len(),
            find_file(*s, canonical@, k as int) == find_file(*s, canonical@, 0),
        decreases s.files.len() - k,
    {
        if s.files[k].canonical == *canonical {
            return Some(k);
        }
        k += 1;
    }
    None
}

/// Finds `name` among the open files.
fn position(stack: &Vec<String>, name: &String) -> (r: Option<usize>)
    ensures
        r is Some <==> names(stack@).contains(name@),
        r matches Some(k) ==> k == position_of(names(stack@), name@, 0) && k < stack.len(),
{
    let ghost open = names(stack@);
    let mut k: usize = 0;
    while k < stack.len()
        invariant
            k <= stack.len(),
            open == names(stack@),
            position_of(open, name@, k as int) == position_of(open, name@, 0),
            forall|x: int| 0 <= x < k ==> open[x] != name@,
        decreases stack.len() - k,
    {
        assert(open[k as int] == stack@[k as int]@);
        if stack[k] == *name {
            return Some(k);
        }
        k += 1;
    }
    None
}

/// Renders the message for an include of `canonical`, which is open at `pos`.
fn cycle_message(stack: &Vec<String>, pos: usize, canonical: &String) -> (r: String)
    requires
        pos <= stack.len(),
    ensures
        r@ == "include cycle: "@ + chain(names(stack@).skip(pos as int)) + canonical@,
{
    let ghost open = names(stack@).skip(pos as int);
    let mut r = String::from_str("include cycle: ");
    let mut k = pos;
    assert(open.take(0) =~= Seq::<Seq<char>>::empty());
    assert(r@ =~= "include cycle: "@ + chain(open.take(0)));
    while k < stack.len()
        invariant
            pos <= k <= stack.len(),
            open == names(stack@).skip(pos as int),
            r@ == "include cycle: "@ + chain(open.take(k - pos)),
        decreases stack.len() - k,
    {
        let ghost before = r@;
        r.append(stack[k].as_str());
        r.append(" -> ");
        proof {
            let next = open.take(k + 1 - pos);
            assert(next.drop_last() =~= open.take(k - pos));
            assert(next.last() == stack@[k as int]@);
            assert(r@ =~= "include cycle: "@ + chain(next));
        }
        k += 1;
    }
    assert(open.take(k - pos) =~= open);
    r.append(canonical.as_str());
    r
}

/// Appends `text` to `out`.
fn push_all(out: &mut Vec<char>, text: &[char])
    ensures
        final(out)@ == old(out)@ + text@,
{
    let mut k: usize = 0;
    assert(out@ =~= old(out)@ + text@.take(0));
    while k < text.len()
        invariant
            k <= text.len(),
            out@ == old(out)@ + text@.take(k as int),
        decreases text.len() - k,
    {
        out.push(text[k]);
        assert(text@.take(k + 1) == text@.take(k as int).push(text@[k as int]));
        assert(out@ =~= old(out)@ + text@.take(k + 1));
        k += 1;
    }
    assert(text@.take(k as int) == text@);
}

/// Splicing a head in front twice is splicing the joined head in front once.
proof fn lemma_splice_twice(a: Seq<char>, b: Seq<char>, rest: Outcome)
    ensures
        splice(a, splice(b, rest)) == splice(a + b, rest),
{
    match rest {
        Outcome::Done(tail) => {
            assert(a + (b + tail) =~= (a + b) + tail);
        },
        _ => {},
    }
}

/// Resolves the include of `target` in the file that was opened as `path` and
/// is canonically `from`, while the files of `stack` are open: finds the
/// file, refuses it if it is open already, and resolves its text line by
/// line. Where the sources lack an answer, says which.
fn resolve_path(
    s: &Sources,
    path: &String,
    from: &String,
    target: &String,
    stack: &mut Vec<String>,
) -> (r: Resolution)
    ensures
        shows(r, entered(*s, path@, from@, target@, names(old(stack)@))),
        r is Done ==> names(final(stack)@) == names(old(stack)@),
    decreases closed(*s, names(old(stack)@)).len(),
{
    let ghost open = names(stack@);
    let k = match find_link_entry(s, from, target) {
        Some(k) => k,
        None => {
            return Resolution::NeedLink {
                path: path.clone(),
                from: from.clone(),
                target: target.clone(),
            };
        },
    };
    let (opened, canonical) = match &s.links[k].link {
        Link::Absolute => {
            return Resolution::Failed(
                Error::IncludeError {
                    path: path.clone(),
                    message: String::from_str("include path must be relative"),
                },
            );
        },
        Link::Unresolved { path: tried, source } => {
            return Resolution::Failed(
                Error::ReadFailed { path: tried.clone(), source: source.clone() },
            );
        },
        Link::File { path: opened, canonical } => (opened, canonical),
    };
    match position(stack, canonical) {
        Some(pos) => {
            let message = cycle_message(stack, pos, canonical);
            return Resolution::Failed(Error::IncludeError { path: opened.clone(), message });
        },
        None => {},
    }
    let j = match find_file_entry(s, canonical) {
        Some(j) => j,
        None => {
            return Resolution::NeedFile { canonical: canonical.clone() };
        },
    };
    let t = match &s.files[j].content {
        Content::Unreadable { source } => {
            return Resolution::Failed(
                Error::ReadFailed { path: opened.clone(), source: source.clone() },
            );
        },
        Content::InvalidUtf8 => {
            return Resolution::Failed(Error::InvalidUtf8 { path: opened.clone() });
        },
        Content::Text(text) => to_chars(text.as_str()),
    };
    proof {
        lemma_closed_shrinks(*s, open, canonical@, j as int);
    }
    let ghost inner = open.push(canonical@);
    let ghost goal = body(*s, t@, 0, opened@, canonical@, inner);
    assert(goal == entered(*s, path@, from@, target@, open));
    stack.push(canonical.clone());
    assert(names(stack@) =~= inner);
    let mut out: Vec<char> = Vec::new();
    let mut i: usize = 0;
    proof {
        lemma_splice_none(goal);
    }
    while i < t.len()
        invariant
            i <= t.len(),
            names(stack@) == inner,
            inner == open.push(canonical@),
            open == names(old(stack)@),
            goal == entered(*s, path@, from@, target@, open),
            closed(*s, inner).len() < closed(*s, open).len(),
            goal == splice(out@, body(*s, t@, i as int, opened@, canonical@, inner)),
        decreases t.len() - i,
    {
        let e = line_end(t.as_slice(), i);
        let line = copy_line(t.as_slice(), i, e);
        let newline = e < t.len();
        let next = if newline {
            e + 1
        } else {
            e
        };
        let at = skip_space(line.as_slice(), 0);
        let ghost rest = body(*s, t@, next as int, opened@, canonical@, inner);
        let ghost stored = out@;
        if directive_at(line.as_slice(), at) {
            let directive = slice_subrange(line.as_slice(), at, line.len());
            assert(directive@ =~= trimmed(line@));
            let name = match parse_include_path(directive, opened.as_str()) {
                Ok(v) => to_string(v.as_slice()),
                Err(e) => {
                    return Resolution::Failed(e);
                },
            };
            let text = match resolve_path(s, opened, canonical, &name, stack) {
                Resolution::Done(text) => to_chars(text.as_str()),
                other => {
                    return other;
                },
            };
            push_all(&mut out, text.as_slice());
            let ends = text.len() > 0 && text[text.len() - 1] == '\n';
            if newline && !ends {
                out.push('\n');
            }
            proof {
                let piece = text@ + line_feed(newline && !ends_in_newline(text@));
                assert(out@ =~= stored + piece);
                lemma_splice_twice(stored, piece, rest);
            }
        } else {
            push_all(&mut out, line.as_slice());
            if newline {
                out.push('\n');
            }
            proof {
                let piece = line@ + line_feed(newline);
                assert(out@ =~= stored + piece);
                lemma_splice_twice(stored, piece, rest);
            }
        }
        i = next;
    }
    let ghost full = stack@;
    let _ = stack.pop();
    proof {
        assert(out@ + Seq::<char>::empty() =~= out@);
        assert(stack@ == full.drop_last());
        assert(names(full).len() == full.len());
        assert forall|x: int| 0 <= x < stack@.len() implies names(stack@)[x] == open[x] by {
            assert(names(full)[x] == full[x]@);
            assert(inner[x] == open[x]);
        }
        assert(names(stack@) =~= open);
    }
    Resolution::Done(to_string(out.as_slice()))
}

/// Splicing nothing in front changes nothing.
proof fn lemma_splice_none(rest: Outcome)
    ensures
        splice(Seq::empty(), rest) == rest,
{
    match rest {
        Outcome::Done(tail) => {
            assert(Seq::<char>::empty() + tail =~= tail);
        },
        _ => {},
    }
}

/// Resolves the includes of the root file `root`, as far as `sources` reach.
pub fn resolve(sources: &Sources, root: &str) -> (r: Resolution)
    ensures
        shows(r, resolved(*sources, root@)),
{
    let mut stack: Vec<String> = Vec::new();
    let nowhere = String::new();
    let target = String::from_str(root);
    assert(names(stack@) =~= Seq::<Seq<char>>::empty());
    resolve_path(sources, &nowhere, &nowhere, &target, &mut stack)
}

/// The cause given for a file that the sources say nothing of.
pub open spec fn unknown_text() -> Seq<char> {
    "unknown source"@
}

/// The failure that an outcome comes to where the sources are all there is:
/// a question left open is a file that cannot be read.
pub open spec fn settled(o: Outcome) -> Result<Seq<char>, Failure> {
    match o {
        Outcome::Done(text) => Ok(text),
        Outcome::Failed(f) => Err(f),
        Outcome::NeedLink { path, from, target } => Err(
            Failure::Read { path: target, source: unknown_text() },
        ),
        Outcome::NeedFile { canonical } => Err(
            Failure::Read { path: canonical, source: unknown_text() },
        ),
    }
}

/// Resolves the includes of the root file `root` from `sources` alone. A file
/// that the sources say nothing of counts as unreadable.
pub fn resolve_includes(sources: &Sources, root: &str) -> (r: Result<String, Error>)
    ensures
        match settled(resolved(*sources, root@)) {
            Ok(text) => r matches Ok(t) && t@ == text,
            Err(f) => r matches Err(e) && is_failure(e, f),
        },
{
    match resolve(sources, root) {
        Resolution::Done(text) => Ok(text),
        Resolution::Failed(e) => Err(e),
        Resolution::NeedLink { path, from, target } => Err(
            Error::ReadFailed { path: target, source: String::from_str("unknown source") },
        ),
        Resolution::NeedFile { canonical } => Err(
            Error::ReadFailed { path: canonical, source: String::from_str("unknown source") },
        ),
    }
}

} // verus!
