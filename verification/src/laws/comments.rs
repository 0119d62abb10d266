//! Laws of the comments that carry source maps, and of the lines of a text.
use vstd::prelude::*;
use crate::bytes::{lemma_line_start_bound, line_end, line_start, newlines};
use crate::laws::{lemma_lists_next, lemma_lists_none, lists_all, with_next};
use crate::smtext::{
    blanks_end, blanks_start, body_start, comment_after, indent_of, least_indent, line_begin,
    line_with_text, marked_line, split_sm_line, text_end,
};
use crate::text::{is_white_space, trimmed_end, trimmed_start};

verus! {

/// Whether no line ends in `s[from..to]`.
pub open spec fn one_line(s: Seq<u8>, from: int, to: int) -> bool {
    forall|k: int| from <= k < to ==> #[trigger] s[k] != 10
}

/// Whether a line starts at `at`.
pub open spec fn first_in_line(s: Seq<u8>, at: int) -> bool {
    at == 0 || s[at - 1] == 10
}

/// Whether `c` is the byte column of `at`.
pub open spec fn at_column(s: Seq<u8>, at: int, c: int) -> bool {
    0 <= c <= at && first_in_line(s, at - c) && one_line(s, at - c, at)
}

/// Whether `n` lines end in front of `to`.
pub open spec fn lines_before(s: Seq<u8>, to: int, n: int) -> bool {
    exists|ends: Seq<int>| #[trigger] are_line_ends(s, to, ends) && ends.len() == n
}

/// Whether `ends` are the line ends in front of `to`.
pub open spec fn are_line_ends(s: Seq<u8>, to: int, ends: Seq<int>) -> bool {
    lists_all(ends, to, |k: int| s[k] == 10)
}

/// A space, a tab or a carriage return.
pub open spec fn is_white(b: u8) -> bool {
    b == 32 || b == 9 || b == 13
}

/// Whether `s[from..to]` is white.
pub open spec fn all_white(s: Seq<u8>, from: int, to: int) -> bool {
    forall|k: int| from <= k < to ==> is_white(#[trigger] s[k])
}

/// Whether text stands on the line of `s[..to]` that starts at `at`, with the first of it at
/// `t`.
pub open spec fn text_at(s: Seq<u8>, at: int, to: int, t: int) -> bool {
    at <= t < to && all_white(s, at, t) && !is_white(s[t]) && s[t] != 10
}

/// Whether `s[at..to]` starts with exactly `n` spaces and tabs.
pub open spec fn indented(s: Seq<u8>, at: int, to: int, n: int) -> bool {
    &&& 0 <= n
    &&& at + n <= to
    &&& forall|k: int| at <= k < at + n ==> #[trigger] s[k] == 32 || s[k] == 9
    &&& at + n == to || !(s[at + n] == 32 || s[at + n] == 9)
}

/// Whether the line that starts at `at` belongs to a body with its first item at `first` and
/// its end at `to`: text stands on it, and it is a later line than that of the first item, or
/// that line with nothing in front of the item.
pub open spec fn body_line(s: Seq<u8>, first: int, to: int, at: int) -> bool {
    &&& 0 <= at < to
    &&& first_in_line(s, at)
    &&& at > first || all_white(s, at, first)
    &&& exists|t: int| #[trigger] text_at(s, at, to, t)
}

/// Whether `n` is the white space that the lines of a body have in common: one has just this
/// much, and none less; or the column of the first item, if there are no such lines.
pub open spec fn is_dedent(s: Seq<u8>, first: int, to: int, n: int) -> bool {
    ||| {
        &&& exists|at: int| #[trigger] body_line(s, first, to, at) && indented(s, at, to, n)
        &&& forall|at: int, m: int|
            #![trigger body_line(s, first, to, at), indented(s, at, to, m)]
            body_line(s, first, to, at) && indented(s, at, to, m) ==> n <= m
    }
    ||| {
        &&& forall|at: int| !#[trigger] body_line(s, first, to, at)
        &&& at_column(s, first, n)
    }
}

/// Whether the line behind that of `end` is a comment that carries `p`: `col` spaces, the
/// prefix, the payload, and then nothing but white space.
pub open spec fn carries(s: Seq<u8>, end: int, col: int, prefix: Seq<u8>, p: Seq<u8>) -> bool {
    exists|eol: int, z: int| #[trigger] comment_lines(s, end, col, prefix, p, eol, z)
}

/// Whether the comment line starts behind `eol` and ends at `z`.
pub open spec fn comment_lines(
    s: Seq<u8>,
    end: int,
    col: int,
    prefix: Seq<u8>,
    p: Seq<u8>,
    eol: int,
    z: int,
) -> bool {
    let from = eol + 1 + col + prefix.len();
    &&& end <= eol < s.len()
    &&& one_line(s, end, eol)
    &&& s[eol] == 10
    &&& from + p.len() <= z <= s.len()
    &&& forall|k: int| eol + 1 <= k < eol + 1 + col ==> #[trigger] s[k] == 32
    &&& s.subrange(eol + 1 + col, from) == prefix
    &&& s.subrange(from, from + p.len()) == p
    &&& one_line(s, from, z)
    &&& all_white(s, from + p.len(), z)
    &&& z == s.len() || s[z] == 10
    &&& p.len() > 0 ==> !is_white(p.last())
}

pub(crate) proof fn lemma_lines_before(s: Seq<u8>, to: int) -> (ends: Seq<int>)
    requires
        0 <= to <= s.len(),
    ensures
        are_line_ends(s, to, ends),
        ends.len() == newlines(s.take(to)),
    decreases to,
{
    let p = |k: int| s[k] == 10;
    if to == 0 {
        lemma_lists_none(p);
        assert(s.take(0) =~= Seq::<u8>::empty());
        Seq::empty()
    } else {
        let ix = lemma_lines_before(s, to - 1);
        assert(s.take(to).drop_last() =~= s.take(to - 1));
        assert(s.take(to).last() == s[to - 1]);
        lemma_lists_next(ix, to - 1, p);
        with_next(ix, to - 1, p)
    }
}

pub(crate) proof fn lemma_column(s: Seq<u8>, at: int)
    requires
        0 <= at <= s.len(),
    ensures
        at_column(s, at, at - line_start(s, at)),
        0 <= line_start(s, at) <= at,
    decreases at,
{
    lemma_line_start_bound(s, at);
    if at > 0 && s[at - 1] != 10 {
        lemma_column(s, at - 1);
    }
}

proof fn lemma_blanks_end(s: Seq<u8>, from: int, to: int)
    requires
        from <= to,
    ensures
        from <= blanks_end(s, from, to) <= to,
        all_white(s, from, blanks_end(s, from, to)),
        blanks_end(s, from, to) < to ==> !is_white(s[blanks_end(s, from, to)]),
    decreases to - from,
{
    if from < to && is_white(s[from]) {
        lemma_blanks_end(s, from + 1, to);
    }
}

proof fn lemma_indent_end(s: Seq<u8>, from: int, to: int)
    requires
        from <= to,
    ensures
        indented(s, from, to, indent_of(s, from, to)),
    decreases to - from,
{
    if from < to && (s[from] == 32 || s[from] == 9) {
        lemma_indent_end(s, from + 1, to);
    }
}

proof fn lemma_indented_once(s: Seq<u8>, at: int, to: int, n: int, m: int)
    requires
        indented(s, at, to, n),
        indented(s, at, to, m),
    ensures
        n == m,
{
    if n < m {
        assert(s[at + n] == 32 || s[at + n] == 9);
    }
    if m < n {
        assert(s[at + m] == 32 || s[at + m] == 9);
    }
}

proof fn lemma_line_with_text(s: Seq<u8>, at: int, to: int)
    requires
        0 <= at <= to,
    ensures
        line_with_text(s, at, to) == (first_in_line(s, at) && exists|t: int| #[trigger]
            text_at(s, at, to, t)),
{
    lemma_blanks_end(s, at, to);
    let e = blanks_end(s, at, to);
    if line_with_text(s, at, to) {
        assert(text_at(s, at, to, e));
    }
    if exists|t: int| #[trigger] text_at(s, at, to, t) {
        let t = choose|t: int| #[trigger] text_at(s, at, to, t);
        if e < t {
            assert(is_white(s[e]));
        }
        if t < e {
            assert(is_white(s[t]));
        }
    }
}

proof fn lemma_body_line(s: Seq<u8>, first: int, to: int, at: int)
    requires
        0 <= first <= s.len(),
    ensures
        body_line(s, first, to, at) == (body_start(s, first) <= at < to && line_with_text(
            s,
            at,
            to,
        )),
        0 <= body_start(s, first) <= first,
{
    lemma_column(s, first);
    let line = line_start(s, first);
    lemma_blanks_end(s, line, first);
    if 0 <= at < to {
        lemma_line_with_text(s, at, to);
    }
    let e = blanks_end(s, line, first);
    if 0 <= at < to && first_in_line(s, at) && at <= first {
        if line < at {
            assert(s[at - 1] != 10);
        }
        if at < line && all_white(s, at, first) {
            assert(s[line - 1] == 10);
            assert(is_white(s[line - 1]));
        }
        if e < first && all_white(s, at, first) {
            assert(is_white(s[e]));
        }
    }
}

proof fn lemma_least(s: Seq<u8>, from: int, upto: int, to: int)
    requires
        0 <= from,
        upto <= to,
    ensures
        match least_indent(s, from, upto, to) {
            Some(i) => {
                &&& exists|at: int|
                    from <= at < upto && #[trigger] line_with_text(s, at, to) && indent_of(
                        s,
                        at,
                        to,
                    ) == i
                &&& forall|at: int|
                    from <= at < upto && #[trigger] line_with_text(s, at, to) ==> i <= indent_of(
                        s,
                        at,
                        to,
                    )
            },
            None => forall|at: int| from <= at < upto ==> !#[trigger] line_with_text(s, at, to),
        },
    decreases upto - from,
{
    if from < upto {
        lemma_least(s, from, upto - 1, to);
        let earlier = least_indent(s, from, upto - 1, to);
        if earlier is Some {
            let at = choose|at: int|
                from <= at < upto - 1 && #[trigger] line_with_text(s, at, to) && indent_of(
                    s,
                    at,
                    to,
                ) == earlier->0;
            assert(line_with_text(s, at, to));
        }
    }
}

/// The dedent of a body is the white space that its lines have in common.
pub(crate) proof fn lemma_dedent(s: Seq<u8>, first: int, to: int) -> (n: int)
    requires
        0 <= first < s.len(),
        0 <= to <= s.len(),
    ensures
        n == (match least_indent(s, body_start(s, first), to, to) {
            Some(i) => i,
            None => first - line_start(s, first),
        }),
        is_dedent(s, first, to, n),
        0 <= n <= s.len(),
{
    let body = body_start(s, first);
    lemma_body_line(s, first, to, 0);
    lemma_least(s, body, to, to);
    lemma_column(s, first);
    match least_indent(s, body, to, to) {
        Some(i) => {
            let at = choose|at: int|
                body <= at < to && #[trigger] line_with_text(s, at, to) && indent_of(s, at, to)
                    == i;
            lemma_body_line(s, first, to, at);
            lemma_indent_end(s, at, to);
            assert(body_line(s, first, to, at) && indented(s, at, to, i));
            assert forall|at: int, m: int|
                #![trigger body_line(s, first, to, at), indented(s, at, to, m)]
                body_line(s, first, to, at) && indented(s, at, to, m) implies i <= m by {
                lemma_body_line(s, first, to, at);
                lemma_indent_end(s, at, to);
                lemma_indented_once(s, at, to, m, indent_of(s, at, to));
            }
            i
        },
        None => {
            assert forall|at: int| !#[trigger] body_line(s, first, to, at) by {
                lemma_body_line(s, first, to, at);
            }
            first - line_start(s, first)
        },
    }
}

proof fn lemma_line_end(s: Seq<u8>, from: int)
    requires
        0 <= from <= s.len(),
    ensures
        from <= line_end(s, from) <= s.len(),
        one_line(s, from, line_end(s, from)),
        line_end(s, from) < s.len() ==> s[line_end(s, from)] == 10,
    decreases s.len() - from,
{
    if from < s.len() && s[from] != 10 {
        lemma_line_end(s, from + 1);
    }
}

proof fn lemma_line_end_is(s: Seq<u8>, from: int, e: int)
    requires
        0 <= from <= e <= s.len(),
        one_line(s, from, e),
        e == s.len() || s[e] == 10,
    ensures
        line_end(s, from) == e,
{
    lemma_line_end(s, from);
    let l = line_end(s, from);
    if l < e {
        assert(s[l] != 10);
    }
    if e < l {
        assert(s[e] != 10);
    }
}

proof fn lemma_blanks_start(s: Seq<u8>, from: int, to: int)
    requires
        0 <= from <= to <= s.len(),
    ensures
        from <= blanks_start(s, from, to) <= to,
        all_white(s, blanks_start(s, from, to), to),
        blanks_start(s, from, to) > from ==> !is_white(s[blanks_start(s, from, to) - 1]),
    decreases to,
{
    if to > from && is_white(s[to - 1]) {
        lemma_blanks_start(s, from, to - 1);
    }
}

/// The comment that is found behind a block is the one on the next line, at the given column
/// and with the given prefix; there is one exactly if that line is such a comment, and what it
/// carries is all behind the prefix but the white space at the end.
pub proof fn comment_behind_a_block(s: Seq<u8>, end: int, col: int, prefix: Seq<u8>, p: Seq<u8>)
    requires
        0 <= end,
        0 <= col,
    ensures
        comment_after(s, end, col, prefix) == Some(p) <==> carries(s, end, col, prefix, p),
{
    if comment_after(s, end, col, prefix) == Some(p) {
        assert(end < s.len());
        lemma_line_end(s, end);
        let eol = line_end(s, end);
        let from = eol + 1 + col + prefix.len();
        lemma_line_end(s, from);
        let z = line_end(s, from);
        lemma_blanks_start(s, from, z);
        let e = blanks_start(s, from, z);
        assert(p =~= s.subrange(from, e));
        assert(comment_lines(s, end, col, prefix, p, eol, z));
    }
    if carries(s, end, col, prefix, p) {
        let (eol, z) = choose|eol: int, z: int| #[trigger]
            comment_lines(s, end, col, prefix, p, eol, z);
        let from = eol + 1 + col + prefix.len();
        lemma_line_end_is(s, end, eol);
        lemma_line_end_is(s, from, z);
        lemma_blanks_start(s, from, z);
        let e = blanks_start(s, from, z);
        let e2 = from + p.len();
        if e < e2 {
            assert(is_white(s[e2 - 1]));
            assert(s[e2 - 1] == s.subrange(from, e2)[p.len() - 1]);
        }
        if e2 < e {
            assert(is_white(s[e - 1]));
        }
        assert(marked_line(s, eol + 1, col, prefix));
    }
}

/// A line end, a space, a carriage return or a tab.
pub open spec fn is_tail(c: char) -> bool {
    c == '\n' || c == ' ' || c == '\r' || c == '\t'
}

/// The blanks: control characters that space or end lines, spaces of every width, and the
/// separators of lines and paragraphs.
pub open spec fn is_space(c: char) -> bool {
    ||| c == '\t' || c == '\n' || c == '\u{b}' || c == '\u{c}' || c == '\r' || c == '\u{85}'
    ||| c == ' ' || c == '\u{a0}' || c == '\u{1680}'
    ||| c == '\u{2000}' || c == '\u{2001}' || c == '\u{2002}' || c == '\u{2003}'
    ||| c == '\u{2004}' || c == '\u{2005}' || c == '\u{2006}' || c == '\u{2007}'
    ||| c == '\u{2008}' || c == '\u{2009}' || c == '\u{200a}'
    ||| c == '\u{2028}' || c == '\u{2029}'
    ||| c == '\u{202f}' || c == '\u{205f}' || c == '\u{3000}'
}

/// White space is every blank and nothing else.
pub proof fn white_space_is_the_blanks(c: char)
    ensures
        is_white_space(c) <==> is_space(c),
{
}

/// Whether `t[from..to]` is white space.
pub open spec fn white_between(t: Seq<char>, from: int, to: int) -> bool {
    forall|k: int| from <= k < to ==> is_white_space(#[trigger] t[k])
}

/// The parts of a text that ends in a comment line: where that line starts, where its prefix
/// does, where its payload starts and ends, and where the line ends.
pub struct CommentLine {
    pub line: int,
    pub mark: int,
    pub from: int,
    pub to: int,
    pub end: int,
}

/// Whether `t` ends in the comment line `c`: the last line that is not empty, which is white
/// space, the prefix, white space, the payload, white space.
pub open spec fn ends_in_comment(t: Seq<char>, prefix: Seq<char>, c: CommentLine) -> bool {
    &&& 0 <= c.line <= c.mark
    &&& c.mark + prefix.len() <= c.from <= c.to <= c.end <= t.len()
    &&& forall|k: int| c.end <= k < t.len() ==> is_tail(#[trigger] t[k])
    &&& c.end > 0 ==> !is_tail(t[c.end - 1])
    &&& c.line == 0 || t[c.line - 1] == '\n'
    &&& forall|k: int| c.line <= k < c.end ==> #[trigger] t[k] != '\n'
    &&& white_between(t, c.line, c.mark)
    &&& c.mark < c.end ==> !is_white_space(t[c.mark])
    &&& t.subrange(c.mark, c.mark + prefix.len()) == prefix
    &&& white_between(t, c.mark + prefix.len(), c.from)
    &&& white_between(t, c.to, c.end)
    &&& c.from < c.to ==> !is_white_space(t[c.from]) && !is_white_space(t[c.to - 1])
    &&& c.from == c.to ==> c.from == c.end
}

proof fn lemma_trim_start(s: Seq<char>) -> (n: int)
    ensures
        0 <= n <= s.len(),
        trimmed_start(s) == s.skip(n),
        white_between(s, 0, n),
        n < s.len() ==> !is_white_space(s[n]),
    decreases s.len(),
{
    if s.len() > 0 && is_white_space(s[0]) {
        let rest = s.skip(1);
        let n = lemma_trim_start(rest);
        assert(rest.skip(n) =~= s.skip(n + 1));
        assert forall|k: int| 0 <= k < n + 1 implies is_white_space(#[trigger] s[k]) by {
            if k > 0 {
                assert(rest[k - 1] == s[k]);
            }
        }
        if n < rest.len() {
            assert(rest[n] == s[n + 1]);
        }
        n + 1
    } else {
        assert(s.skip(0) =~= s);
        0
    }
}

proof fn lemma_trim_end(s: Seq<char>) -> (n: int)
    ensures
        0 <= n <= s.len(),
        trimmed_end(s) == s.take(n),
        white_between(s, n, s.len() as int),
        n > 0 ==> !is_white_space(s[n - 1]),
    decreases s.len(),
{
    if s.len() > 0 && is_white_space(s.last()) {
        let rest = s.drop_last();
        let n = lemma_trim_end(rest);
        assert(rest.take(n) =~= s.take(n));
        assert forall|k: int| n <= k < s.len() implies is_white_space(#[trigger] s[k]) by {
            if k < rest.len() {
                assert(rest[k] == s[k]);
            }
        }
        if n > 0 {
            assert(rest[n - 1] == s[n - 1]);
        }
        n
    } else {
        assert(s.take(s.len() as int) =~= s);
        s.len() as int
    }
}

proof fn lemma_text_end(t: Seq<char>)
    ensures
        0 <= text_end(t) <= t.len(),
        forall|k: int| text_end(t) <= k < t.len() ==> is_tail(#[trigger] t[k]),
        text_end(t) > 0 ==> !is_tail(t[text_end(t) - 1]),
    decreases t.len(),
{
    if t.len() > 0 && is_tail(t.last()) {
        let init = t.drop_last();
        lemma_text_end(init);
        assert forall|k: int| text_end(t) <= k < t.len() implies is_tail(#[trigger] t[k]) by {
            if k < init.len() {
                assert(init[k] == t[k]);
            }
        }
        if text_end(t) > 0 {
            assert(init[text_end(t) - 1] == t[text_end(t) - 1]);
        }
    }
}

proof fn lemma_line_begin(t: Seq<char>, end: int)
    requires
        0 <= end <= t.len(),
    ensures
        0 <= line_begin(t, end) <= end,
        line_begin(t, end) == 0 || t[line_begin(t, end) - 1] == '\n',
        forall|k: int| line_begin(t, end) <= k < end ==> #[trigger] t[k] != '\n',
    decreases end,
{
    if end > 0 && t[end - 1] != '\n' {
        lemma_line_begin(t, end - 1);
    }
}

/// The comment line that the splitting of `t` finds.
proof fn lemma_found(t: Seq<char>, prefix: Seq<char>) -> (c: CommentLine)
    requires
        split_sm_line(t, prefix).1 is Some,
    ensures
        ends_in_comment(t, prefix, c),
        split_sm_line(t, prefix).1 == Some(t.subrange(c.from, c.to)),
        split_sm_line(t, prefix).0 == t.take(if c.line > 0 {
            c.line - 1
        } else {
            0
        }),
{
    lemma_text_end(t);
    let end = text_end(t);
    lemma_line_begin(t, end);
    let line = line_begin(t, end);
    let whole = t.subrange(line, end);
    let a = lemma_trim_start(whole);
    let mark = line + a;
    let marked = whole.skip(a);
    let rest = marked.skip(prefix.len() as int);
    let b = lemma_trim_start(rest);
    let inner = rest.skip(b);
    let n = lemma_trim_end(inner);
    let base = mark + prefix.len();
    let from = base + b;
    let to = from + n;
    assert(marked.subrange(0, prefix.len() as int) == prefix);
    assert(t.subrange(mark, base) =~= marked.subrange(0, prefix.len() as int));
    assert(inner.take(n) =~= t.subrange(from, to));
    assert forall|k: int| line <= k < mark implies is_white_space(#[trigger] t[k]) by {
        assert(whole[k - line] == t[k]);
    }
    assert forall|k: int| base <= k < from implies is_white_space(#[trigger] t[k]) by {
        assert(rest[k - base] == t[k]);
    }
    assert forall|k: int| to <= k < end implies is_white_space(#[trigger] t[k]) by {
        assert(inner[k - from] == t[k]);
    }
    if mark < end {
        assert(whole[a] == t[mark]);
    }
    if n > 0 {
        assert(rest[b] == t[from]);
        assert(inner[n - 1] == t[to - 1]);
    } else if b < rest.len() {
        assert(inner[0] == rest[b]);
        assert(is_white_space(inner[0]));
    }
    CommentLine { line, mark, from, to, end }
}

/// Two readings of a comment line agree.
proof fn lemma_same_comment(t: Seq<char>, prefix: Seq<char>, c: CommentLine, d: CommentLine)
    requires
        ends_in_comment(t, prefix, c),
        ends_in_comment(t, prefix, d),
    ensures
        c == d,
{
    if c.end < d.end {
        assert(is_tail(t[d.end - 1]));
    }
    if d.end < c.end {
        assert(is_tail(t[c.end - 1]));
    }
    if c.line < d.line {
        assert(t[d.line - 1] != '\n');
    }
    if d.line < c.line {
        assert(t[c.line - 1] != '\n');
    }
    if c.mark < d.mark {
        assert(is_white_space(t[c.mark]));
    }
    if d.mark < c.mark {
        assert(is_white_space(t[d.mark]));
    }
    let n = prefix.len();
    if c.from < d.from {
        if c.from < c.to {
            assert(is_white_space(t[c.from]));
        }
    }
    if d.from < c.from {
        if d.from < d.to {
            assert(is_white_space(t[d.from]));
        }
    }
    if c.to < d.to {
        if d.from < d.to {
            assert(is_white_space(t[d.to - 1]));
        }
    }
    if d.to < c.to {
        if c.from < c.to {
            assert(is_white_space(t[c.to - 1]));
        }
    }
}

/// Splitting a block's text at its trailing comment line: it is split exactly if the last line
/// that is not empty is such a comment. Then the text in front of that line, without the line
/// end, is left, and the payload without white space around it; else the whole text.
pub proof fn trailing_comment_is_split_off(t: Seq<char>, prefix: Seq<char>)
    ensures
        (exists|c: CommentLine| #[trigger] ends_in_comment(t, prefix, c)) <==> split_sm_line(
            t,
            prefix,
        ).1 is Some,
        forall|c: CommentLine| #[trigger]
            ends_in_comment(t, prefix, c) ==> split_sm_line(t, prefix) == (
                t.take(
                    if c.line > 0 {
                        c.line - 1
                    } else {
                        0
                    },
                ),
                Some(t.subrange(c.from, c.to)),
            ),
        split_sm_line(t, prefix).1 is None ==> split_sm_line(t, prefix).0 == t,
{
    if split_sm_line(t, prefix).1 is Some {
        let c = lemma_found(t, prefix);
        assert(ends_in_comment(t, prefix, c));
    }
    assert forall|c: CommentLine| #[trigger] ends_in_comment(t, prefix, c) implies split_sm_line(
        t,
        prefix,
    ) == (
        t.take(
            if c.line > 0 {
                c.line - 1
            } else {
                0
            },
        ),
        Some(t.subrange(c.from, c.to)),
    ) by {
        lemma_ends_is_found(t, prefix, c);
        let d = lemma_found(t, prefix);
        lemma_same_comment(t, prefix, c, d);
    }
}

proof fn lemma_ends_is_found(t: Seq<char>, prefix: Seq<char>, c: CommentLine)
    requires
        ends_in_comment(t, prefix, c),
    ensures
        split_sm_line(t, prefix).1 is Some,
{
    lemma_text_end(t);
    let end = text_end(t);
    lemma_line_begin(t, end);
    let line = line_begin(t, end);
    if end < c.end {
        assert(is_tail(t[c.end - 1]));
    }
    if c.end < end {
        assert(is_tail(t[end - 1]));
    }
    if line < c.line {
        assert(t[c.line - 1] != '\n');
    }
    if c.line < line {
        assert(t[line - 1] != '\n');
    }
    let whole = t.subrange(line, end);
    let a = lemma_trim_start(whole);
    if line + a < c.mark {
        assert(is_white_space(t[line + a]));
    }
    if c.mark < line + a {
        assert(whole[c.mark - line] == t[c.mark]);
    }
    let marked = whole.skip(a);
    assert(marked.subrange(0, prefix.len() as int) =~= t.subrange(
        c.mark,
        c.mark + prefix.len(),
    ));
}

} // verus!
