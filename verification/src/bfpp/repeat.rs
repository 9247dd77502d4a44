//! Expansion of `@repeat N X` and `@repeat N { ... }`.

use crate::bfpp::error::Error;
use crate::chars::{to_chars, to_string};
use crate::text::{decimal, push_decimal};
use vstd::prelude::*;
use vstd::string::*;

verus! {

/// How many bytes the UTF-8 encoding of `c` takes.
pub open spec fn utf8_width(c: char) -> nat {
    if (c as u32) < 0x80 {
        1
    } else if (c as u32) < 0x800 {
        2
    } else if (c as u32) < 0x10000 {
        3
    } else {
        4
    }
}

/// The byte offset of the character at index `i` in the UTF-8 encoding of `t`.
pub open spec fn byte_offset(t: Seq<char>, i: int) -> nat
    decreases i,
{
    if i <= 0 {
        0
    } else {
        byte_offset(t, i - 1) + utf8_width(t[i - 1])
    }
}

/// ASCII whitespace: space, tab, line feed, form feed, carriage return.
pub open spec fn is_ascii_space(c: char) -> bool {
    c == ' ' || c == '\t' || c == '\n' || c == '\x0C' || c == '\r'
}

/// Whitespace in the sense of Unicode.
pub open spec fn is_space(c: char) -> bool {
    let v = c as u32;
    (0x09 <= v <= 0x0d) || v == 0x20 || v == 0x85 || v == 0xa0 || v == 0x1680 || (0x2000 <= v
        <= 0x200a) || v == 0x2028 || v == 0x2029 || v == 0x202f || v == 0x205f || v == 0x3000
}

/// A decimal digit.
pub open spec fn is_digit(c: char) -> bool {
    0x30 <= (c as u32) <= 0x39
}

/// How many ASCII whitespace characters stand at `i`.
pub open spec fn ws_run(t: Seq<char>, i: int) -> nat
    decreases t.len() - i,
{
    if 0 <= i < t.len() && is_ascii_space(t[i]) {
        1 + ws_run(t, i + 1)
    } else {
        0
    }
}

/// How many digits stand at `i`.
pub open spec fn digit_run(t: Seq<char>, i: int) -> nat
    decreases t.len() - i,
{
    if 0 <= i < t.len() && is_digit(t[i]) {
        1 + digit_run(t, i + 1)
    } else {
        0
    }
}

/// The number that the digits `t[i..e]` spell.
pub open spec fn number(t: Seq<char>, i: int, e: int) -> nat
    decreases e - i,
{
    if e <= i {
        0
    } else {
        number(t, i, e - 1) * 10 + ((t[e - 1] as u32) - 0x30) as nat
    }
}

/// Whether the keyword `@repeat` stands at `i`.
pub open spec fn has_keyword(t: Seq<char>, i: int) -> bool {
    0 <= i && i + 7 <= t.len() && t.subrange(i, i + 7) == "@repeat"@
}

/// `piece`, `n` times over.
pub open spec fn repeated(piece: Seq<char>, n: nat) -> Seq<char>
    decreases n,
{
    if n == 0 {
        Seq::empty()
    } else {
        repeated(piece, (n - 1) as nat) + piece
    }
}

/// Why an expansion failed. Positions are character indices.
pub enum RepeatFault {
    /// No whitespace behind `@repeat`, or behind the count; at the keyword.
    Syntax(int),
    /// No digit where the count should stand.
    ExpectedCount(int),
    /// The count is too large.
    Overflow,
    /// The count, which stands at the position, is zero.
    ZeroCount(int),
    /// The text ends before the target; at the keyword.
    MissingTarget(int),
    /// The target is whitespace.
    InvalidTarget(int),
    /// A `{` is never closed.
    MissingBrace,
}

impl RepeatFault {
    /// The fixed part of the message for this fault.
    pub open spec fn head(self) -> Seq<char> {
        match self {
            RepeatFault::Syntax(_) => "invalid @repeat syntax at byte "@,
            RepeatFault::ExpectedCount(_) => "expected repeat count at byte "@,
            RepeatFault::Overflow => "repeat count overflow"@,
            RepeatFault::ZeroCount(_) => "repeat count must be positive at byte "@,
            RepeatFault::MissingTarget(_) => "missing repeat target at byte "@,
            RepeatFault::InvalidTarget(_) => "invalid repeat target at byte "@,
            RepeatFault::MissingBrace => "missing '}'"@,
        }
    }

    /// The character index that the message names, if it names one.
    pub open spec fn position(self) -> Option<int> {
        match self {
            RepeatFault::Syntax(at) => Some(at),
            RepeatFault::ExpectedCount(at) => Some(at),
            RepeatFault::Overflow => None,
            RepeatFault::ZeroCount(at) => Some(at),
            RepeatFault::MissingTarget(at) => Some(at),
            RepeatFault::InvalidTarget(at) => Some(at),
            RepeatFault::MissingBrace => None,
        }
    }

    /// The message for this fault in the text `t`; the position is given in
    /// bytes of the UTF-8 encoding.
    pub open spec fn text(self, t: Seq<char>) -> Seq<char> {
        match self.position() {
            Some(at) => self.head() + decimal(byte_offset(t, at)),
            None => self.head(),
        }
    }
}

/// The count that stands at `i`, and how many digits it has.
pub open spec fn count_at(t: Seq<char>, i: int) -> Result<(nat, nat), RepeatFault> {
    let n = digit_run(t, i);
    if n == 0 {
        Err(RepeatFault::ExpectedCount(i))
    } else if number(t, i, i + n) > usize::MAX {
        Err(RepeatFault::Overflow)
    } else {
        Ok((number(t, i, i + n), n))
    }
}

/// `head` in front of what a parse produced.
pub open spec fn follow(head: Seq<char>, used: nat, rest: Result<(Seq<char>, nat), RepeatFault>) -> Result<
    (Seq<char>, nat),
    RepeatFault,
> {
    match rest {
        Ok((tail, more)) => Ok((head + tail, used + more)),
        Err(f) => Err(f),
    }
}

/// The expansion of the section that starts at `i`, and how many characters
/// it takes up. With a `closer`, the section ends behind the first closer that
/// stands outside every macro; without, at the end of the text.
pub open spec fn section(t: Seq<char>, i: int, closer: Option<char>) -> Result<
    (Seq<char>, nat),
    RepeatFault,
>
    decreases
        if i < t.len() {
            t.len() - i
        } else {
            0
        },
{
    if i < 0 || i >= t.len() {
        if closer is Some {
            Err(RepeatFault::MissingBrace)
        } else {
            Ok((Seq::empty(), 0))
        }
    } else if closer == Some(t[i]) {
        Ok((Seq::empty(), 1))
    } else if has_keyword(t, i) {
        let b = i + 7 + ws_run(t, i + 7);
        if ws_run(t, i + 7) == 0 {
            Err(RepeatFault::Syntax(i))
        } else {
            match count_at(t, b) {
                Err(f) => Err(f),
                Ok((count, digits)) => {
                    let d = b + digits + ws_run(t, b + digits);
                    if count == 0 {
                        Err(RepeatFault::ZeroCount(b))
                    } else if ws_run(t, b + digits) == 0 {
                        Err(RepeatFault::Syntax(i))
                    } else if d >= t.len() {
                        Err(RepeatFault::MissingTarget(i))
                    } else if t[d] == '{' {
                        match section(t, d + 1, Some('}')) {
                            Err(f) => Err(f),
                            Ok((inner, used)) => follow(
                                repeated(inner, count),
                                (d + 1 + used - i) as nat,
                                section(t, d + 1 + used, closer),
                            ),
                        }
                    } else if is_space(t[d]) {
                        Err(RepeatFault::InvalidTarget(d))
                    } else {
                        follow(
                            repeated(seq![t[d]], count),
                            (d + 1 - i) as nat,
                            section(t, d + 1, closer),
                        )
                    }
                },
            }
        }
    } else {
        follow(seq![t[i]], 1, section(t, i + 1, closer))
    }
}

/// The text with every `@repeat` macro expanded.
pub open spec fn expanded(t: Seq<char>) -> Result<Seq<char>, RepeatFault> {
    match section(t, 0, None) {
        Ok((out, _)) => Ok(out),
        Err(f) => Err(f),
    }
}

/// Executable test for [`is_ascii_space`].
pub fn ascii_space(c: char) -> (r: bool)
    ensures
        r == is_ascii_space(c),
{
    c == ' ' || c == '\t' || c == '\n' || c == '\x0C' || c == '\r'
}

/// Executable test for [`is_space`].
pub fn space(c: char) -> (r: bool)
    ensures
        r == is_space(c),
{
    let v = c as u32;
    (0x09 <= v && v <= 0x0d) || v == 0x20 || v == 0x85 || v == 0xa0 || v == 0x1680 || (0x2000 <= v
        && v <= 0x200a) || v == 0x2028 || v == 0x2029 || v == 0x202f || v == 0x205f || v
        == 0x3000
}

/// Executable test for [`is_digit`].
pub fn digit(c: char) -> (r: bool)
    ensures
        r == is_digit(c),
{
    let v = c as u32;
    0x30 <= v && v <= 0x39
}

/// The byte offset of the character at index `i`.
fn offset_of(t: &[char], i: usize) -> (r: u128)
    requires
        i <= t.len(),
    ensures
        r == byte_offset(t@, i as int),
{
    let mut r: u128 = 0;
    let mut k: usize = 0;
    while k < i
        invariant
            k <= i <= t.len(),
            r == byte_offset(t@, k as int),
            r <= 4 * k,
        decreases i - k,
    {
        let v = t[k] as u32;
        let w: u128 = if v < 0x80 {
            1
        } else if v < 0x800 {
            2
        } else if v < 0x10000 {
            3
        } else {
            4
        };
        r = r + w;
        k += 1;
    }
    r
}

/// The error for `fault`, found in `t`.
fn fault_error(t: &[char], fault: Ghost<RepeatFault>, head: &str, at: Option<usize>) -> (e: Error)
    requires
        head@ == fault@.head(),
        match fault@.position() {
            Some(i) => at matches Some(a) && a == i && a <= t.len(),
            None => at is None,
        },
    ensures
        reports(e, fault@, t@),
{
    let mut message = String::from_str(head);
    match at {
        Some(i) => {
            push_decimal(&mut message, offset_of(t, i));
        },
        None => {},
    }
    Error::RepeatError { message }
}

/// Whether `e` is the error for `fault`, found in `t`.
pub open spec fn reports(e: Error, fault: RepeatFault, t: Seq<char>) -> bool {
    e matches Error::RepeatError { message } && message@ == fault.text(t)
}

/// Skips ASCII whitespace from `i` on. Gives where it ends, and whether there
/// was any.
fn skip_ws(t: &[char], i: usize) -> (r: (usize, bool))
    requires
        i <= t.len(),
    ensures
        r.0 == i + ws_run(t@, i as int),
        r.0 <= t.len(),
        r.1 == (ws_run(t@, i as int) > 0),
{
    let mut k = i;
    while k < t.len() && ascii_space(t[k])
        invariant
            i <= k <= t.len(),
            k + ws_run(t@, k as int) == i + ws_run(t@, i as int),
        decreases t.len() - k,
    {
        k += 1;
    }
    (k, k > i)
}

/// The number spelled by digits only grows as more digits are read.
proof fn lemma_number_grows(t: Seq<char>, i: int, k: int, e: int)
    requires
        i <= k <= e <= t.len(),
        forall|m: int| i <= m < e ==> is_digit(#[trigger] t[m]),
    ensures
        number(t, i, k) <= number(t, i, e),
    decreases e - k,
{
    if k < e {
        lemma_number_grows(t, i, k, e - 1);
    }
}

/// Reads the decimal count that stands at `start`. Gives the count and where
/// it ends.
fn parse_number(t: &[char], start: usize) -> (r: Result<(usize, usize), Error>)
    requires
        start <= t.len(),
    ensures
        match count_at(t@, start as int) {
            Ok((count, digits)) => r == Ok::<(usize, usize), Error>(
                (count as usize, (start + digits) as usize),
            ) && start + digits <= t.len(),
            Err(f) => r matches Err(e) && reports(e, f, t@),
        },
{
    let mut i = start;
    let mut value: usize = 0;
    while i < t.len() && digit(t[i])
        invariant
            start <= i <= t.len(),
            forall|m: int| start <= m < i ==> is_digit(#[trigger] t@[m]),
            i + digit_run(t@, i as int) == start + digit_run(t@, start as int),
            value == number(t@, start as int, i as int),
        decreases t.len() - i,
    {
        let digit = (t[i] as u32 - 0x30) as usize;
        let next = match value.checked_mul(10) {
            Some(v) => v.checked_add(digit),
            None => None,
        };
        match next {
            Some(v) => {
                value = v;
            },
            None => {
                proof {
                    let e = start + digit_run(t@, start as int);
                    lemma_digit_run(t@, start as int, i + 1);
                    lemma_digits(t@, start as int);
                    lemma_number_grows(t@, start as int, i + 1, e);
                }
                return Err(fault_error(t, Ghost(RepeatFault::Overflow), "repeat count overflow", None));
            },
        }
        i += 1;
    }
    proof {
        assert(digit_run(t@, i as int) == 0);
    }
    if i == start {
        return Err(
            fault_error(
                t,
                Ghost(RepeatFault::ExpectedCount(start as int)),
                "expected repeat count at byte ",
                Some(start),
            ),
        );
    }
    Ok((value, i))
}

/// A run of digits is at least as long as any stretch of digits from its start.
proof fn lemma_digit_run(t: Seq<char>, i: int, k: int)
    requires
        0 <= i <= k <= t.len(),
        forall|m: int| i <= m < k ==> is_digit(#[trigger] t[m]),
    ensures
        digit_run(t, i) >= k - i,
    decreases k - i,
{
    if i < k {
        lemma_digit_run(t, i + 1, k);
    }
}

/// A run of digits is made of digits, and stays within the text.
proof fn lemma_digits(t: Seq<char>, i: int)
    requires
        0 <= i <= t.len(),
    ensures
        i + digit_run(t, i) <= t.len(),
        forall|m: int| i <= m < i + digit_run(t, i) ==> is_digit(#[trigger] t[m]),
    decreases t.len() - i,
{
    if i < t.len() && is_digit(t[i]) {
        lemma_digits(t, i + 1);
    }
}

/// The character at `i`. Fails at the end of the text.
fn next_char(t: &[char], i: usize) -> (r: Result<char, Error>)
    ensures
        i < t.len() ==> r == Ok::<char, Error>(t@[i as int]),
        i >= t.len() ==> r is Err,
{
    if i < t.len() {
        Ok(t[i])
    } else {
        Err(Error::RepeatError { message: String::from_str("unexpected end of input") })
    }
}

/// Whether the keyword `@repeat` stands at `i`.
fn keyword_at(t: &[char], i: usize) -> (r: bool)
    requires
        i <= t.len(),
    ensures
        r == has_keyword(t@, i as int),
{
    proof {
        reveal_strlit("@repeat");
    }
    if t.len() - i < 7 {
        return false;
    }
    let r = t[i] == '@' && t[i + 1] == 'r' && t[i + 2] == 'e' && t[i + 3] == 'p' && t[i + 4] == 'e'
        && t[i + 5] == 'a' && t[i + 6] == 't';
    proof {
        let word = t@.subrange(i as int, i + 7);
        if r {
            assert(word =~= "@repeat"@);
        } else {
            if word == "@repeat"@ {
                assert(word[0] == t@[i as int]);
                assert(word[1] == t@[i + 1]);
                assert(word[2] == t@[i + 2]);
                assert(word[3] == t@[i + 3]);
                assert(word[4] == t@[i + 4]);
                assert(word[5] == t@[i + 5]);
                assert(word[6] == t@[i + 6]);
            }
        }
    }
    r
}

/// Appends `piece` to `out`, `count` times.
fn push_repeated(out: &mut Vec<char>, piece: &[char], count: usize)
    ensures
        final(out)@ == old(out)@ + repeated(piece@, count as nat),
{
    let mut n: usize = 0;
    assert(out@ =~= old(out)@ + repeated(piece@, 0));
    while n < count
        invariant
            n <= count,
            out@ == old(out)@ + repeated(piece@, n as nat),
        decreases count - n,
    {
        let ghost before = out@;
        let mut k: usize = 0;
        while k < piece.len()
            invariant
                k <= piece.len(),
                out@ == before + piece@.take(k as int),
            decreases piece.len() - k,
        {
            out.push(piece[k]);
            assert(piece@.take(k + 1) == piece@.take(k as int).push(piece@[k as int]));
            k += 1;
        }
        assert(piece@.take(k as int) == piece@);
        assert(out@ =~= old(out)@ + repeated(piece@, (n + 1) as nat));
        n += 1;
    }
}

/// Putting a head in front twice is putting the joined head in front once.
proof fn lemma_follow_twice(
    a: Seq<char>,
    u: nat,
    b: Seq<char>,
    v: nat,
    rest: Result<(Seq<char>, nat), RepeatFault>,
)
    ensures
        follow(a, u, follow(b, v, rest)) == follow(a + b, u + v, rest),
{
    match rest {
        Ok((tail, more)) => {
            assert(a + (b + tail) =~= (a + b) + tail);
        },
        Err(_) => {},
    }
}

/// Expands the section that starts at `start`: up to the end of the text, or,
/// with an `end_char`, up to the first such character outside every macro.
/// Gives the expansion and the index behind the section.
fn parse_section(t: &[char], start: usize, end_char: Option<char>) -> (r: Result<
    (Vec<char>, usize),
    Error,
>)
    requires
        start <= t.len(),
    ensures
        match section(t@, start as int, end_char) {
            Ok((out, used)) => r matches Ok((v, next)) && v@ == out && next == start + used && next
                <= t.len(),
            Err(f) => r matches Err(e) && reports(e, f, t@),
        },
    decreases t.len() - start,
{
    let ghost goal = section(t@, start as int, end_char);
    let mut out: Vec<char> = Vec::new();
    let mut i = start;
    proof {
        lemma_follow_none(goal);
    }
    while i < t.len()
        invariant
            start <= i <= t.len(),
            goal == section(t@, start as int, end_char),
            goal == follow(out@, (i - start) as nat, section(t@, i as int, end_char)),
        decreases t.len() - i,
    {
        let ghost here = section(t@, i as int, end_char);
        if let Some(end) = end_char {
            if t[i] == end {
                proof {
                    assert(out@ + Seq::<char>::empty() =~= out@);
                }
                return Ok((out, i + 1));
            }
        }
        if keyword_at(t, i) {
            let begin = i;
            let (after_word, had_ws) = skip_ws(t, i + 7);
            if !had_ws {
                return Err(
                    fault_error(
                        t,
                        Ghost(RepeatFault::Syntax(begin as int)),
                        "invalid @repeat syntax at byte ",
                        Some(begin),
                    ),
                );
            }
            let (count, after_count) = match parse_number(t, after_word) {
                Ok(pair) => pair,
                Err(e) => {
                    return Err(e);
                },
            };
            if count == 0 {
                return Err(
                    fault_error(
                        t,
                        Ghost(RepeatFault::ZeroCount(after_word as int)),
                        "repeat count must be positive at byte ",
                        Some(after_word),
                    ),
                );
            }
            let (target, had_ws) = skip_ws(t, after_count);
            if !had_ws {
                return Err(
                    fault_error(
                        t,
                        Ghost(RepeatFault::Syntax(begin as int)),
                        "invalid @repeat syntax at byte ",
                        Some(begin),
                    ),
                );
            }
            if target >= t.len() {
                return Err(
                    fault_error(
                        t,
                        Ghost(RepeatFault::MissingTarget(begin as int)),
                        "missing repeat target at byte ",
                        Some(begin),
                    ),
                );
            }
            let ghost stored = out@;
            if t[target] == '{' {
                let (inner, next) = match parse_section(t, target + 1, Some('}')) {
                    Ok(pair) => pair,
                    Err(e) => {
                        return Err(e);
                    },
                };
                push_repeated(&mut out, inner.as_slice(), count);
                proof {
                    lemma_follow_twice(
                        stored,
                        (begin - start) as nat,
                        repeated(inner@, count as nat),
                        (next - begin) as nat,
                        section(t@, next as int, end_char),
                    );
                }
                i = next;
            } else {
                let ch = match next_char(t, target) {
                    Ok(c) => c,
                    Err(e) => {
                        return Err(e);
                    },
                };
                if space(ch) {
                    return Err(
                        fault_error(
                            t,
                            Ghost(RepeatFault::InvalidTarget(target as int)),
                            "invalid repeat target at byte ",
                            Some(target),
                        ),
                    );
                }
                let mut piece: Vec<char> = Vec::new();
                piece.push(ch);
                assert(piece@ =~= seq![ch]);
                push_repeated(&mut out, piece.as_slice(), count);
                proof {
                    lemma_follow_twice(
                        stored,
                        (begin - start) as nat,
                        repeated(seq![ch], count as nat),
                        (target + 1 - begin) as nat,
                        section(t@, target + 1, end_char),
                    );
                }
                i = target + 1;
            }
            continue ;
        }
        let ch = match next_char(t, i) {
            Ok(c) => c,
            Err(e) => {
                return Err(e);
            },
        };
        proof {
            lemma_follow_twice(
                out@,
                (i - start) as nat,
                seq![ch],
                1,
                section(t@, i + 1, end_char),
            );
            assert(out@ + seq![ch] =~= out@.push(ch));
        }
        out.push(ch);
        i += 1;
    }
    if end_char.is_some() {
        return Err(fault_error(t, Ghost(RepeatFault::MissingBrace), "missing '}'", None));
    }
    proof {
        assert(out@ + Seq::<char>::empty() =~= out@);
    }
    Ok((out, i))
}

/// Putting nothing in front changes nothing.
proof fn lemma_follow_none(rest: Result<(Seq<char>, nat), RepeatFault>)
    ensures
        follow(Seq::empty(), 0, rest) == rest,
{
    match rest {
        Ok((tail, more)) => {
            assert(Seq::<char>::empty() + tail =~= tail);
        },
        Err(_) => {},
    }
}

/// Expands every `@repeat` macro of `text`.
pub fn expand_repeats(text: &str) -> (r: Result<String, Error>)
    ensures
        match expanded(text@) {
            Ok(out) => r matches Ok(s) && s@ == out,
            Err(f) => r matches Err(e) && reports(e, f, text@),
        },
{
    let t = to_chars(text);
    match parse_section(t.as_slice(), 0, None) {
        Ok((out, _)) => Ok(to_string(out.as_slice())),
        Err(e) => Err(e),
    }
}

} // verus!
