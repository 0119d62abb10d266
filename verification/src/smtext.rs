//! The source text of blocks, and the comments that carry source maps.
use vstd::prelude::*;
use vstd::string::*;
use vstd::utf8::*;
use crate::bytes::{
    bytes_of, count_newlines, find_line_end, find_line_start, lemma_ascii_boundaries,
    lemma_line_end_bound, lemma_line_start_bound, lemma_text_pieces, line_end, line_start, newlines,
    slice, text_between, NEWLINE,
};
use crate::text::{
    chars_of, is_white_space, skip_white, skip_white_back, string_of, trimmed, trimmed_end,
    trimmed_start,
};

verus! {

/// The text behind an optional string.
pub open spec fn opt_text(s: Option<String>) -> Option<Seq<char>> {
    match s {
        Some(s) => Some(s@),
        None => None,
    }
}

/// Where the content of a block stands in the source, in bytes, and how it is dedented.
#[derive(Clone, Copy, Debug)]
pub struct BlockContent {
    pub start: u32,
    pub end: u32,
    /// The indentation to take off each further line: what all lines have in common.
    pub strip: u32,
    /// The line of the first item, and its column in bytes.
    pub first_line: u32,
    pub first_col: u32,
}

/// The white space that a line may start with.
pub open spec fn is_indent_byte(b: u8) -> bool {
    b == 32 || b == 9
}

/// Where the indentation at the front of `s[from..to]` ends.
pub open spec fn indent_end(s: Seq<u8>, from: int, to: int) -> int
    decreases to - from,
{
    if from < to && is_indent_byte(s[from]) {
        indent_end(s, from + 1, to)
    } else {
        from
    }
}

/// Where the blanks at the front of `s[from..to]` end.
pub open spec fn blanks_end(s: Seq<u8>, from: int, to: int) -> int
    decreases to - from,
{
    if from < to && is_blank_byte(s[from]) {
        blanks_end(s, from + 1, to)
    } else {
        from
    }
}

/// Whether a line of `s[..to]` that is not blank starts at `at`.
pub open spec fn line_with_text(s: Seq<u8>, at: int, to: int) -> bool {
    let text = blanks_end(s, at, to);
    &&& at == 0 || s[at - 1] == NEWLINE
    &&& text < to
    &&& s[text] != NEWLINE
}

/// The indentation of the line of `s[..to]` that starts at `at`.
pub open spec fn indent_of(s: Seq<u8>, at: int, to: int) -> int {
    indent_end(s, at, to) - at
}

/// The least indentation of the lines of `s[..to]` that start in `from..upto` and are not
/// blank.
pub open spec fn least_indent(s: Seq<u8>, from: int, upto: int, to: int) -> Option<int>
    decreases upto - from,
{
    if upto <= from {
        None
    } else {
        let earlier = least_indent(s, from, upto - 1, to);
        if line_with_text(s, upto - 1, to) {
            match earlier {
                Some(i) if i <= indent_of(s, upto - 1, to) => earlier,
                _ => Some(indent_of(s, upto - 1, to)),
            }
        } else {
            earlier
        }
    }
}

/// Where the lines of a block with its first item at `first` start to count for its dedent:
/// with the line of that item, unless something else stands in front of the item on it, such
/// as the block's header. Then only later lines count.
pub open spec fn body_start(s: Seq<u8>, first: int) -> int {
    let line = line_start(s, first);
    if blanks_end(s, line, first) == first {
        line
    } else {
        first
    }
}

/// The content of a block whose items run from byte `first` to byte `last`: it starts at
/// the first item and ends with the last one or with the source. It is dedented by the white
/// space that its own lines have in common; blank lines do not count. Without such lines, it
/// is dedented by the column of the first item. There is no content if the first item starts
/// behind the source.
pub open spec fn block_content(s: Seq<u8>, first: u32, last: u32) -> Option<BlockContent> {
    if first >= s.len() {
        None
    } else {
        let line = line_start(s, first as int);
        let end = if last <= s.len() {
            last
        } else {
            s.len() as u32
        };
        Some(
            BlockContent {
                start: first,
                end,
                strip: match least_indent(
                    s,
                    body_start(s, first as int),
                    end as int,
                    end as int,
                ) {
                    Some(i) => i as u32,
                    None => (first - line) as u32,
                },
                first_line: newlines(s.take(line)) as u32,
                first_col: (first - line) as u32,
            },
        )
    }
}

proof fn lemma_indent_end_bound(s: Seq<u8>, from: int, to: int)
    requires
        from <= to,
    ensures
        from <= indent_end(s, from, to) <= to,
    decreases to - from,
{
    if from < to && is_indent_byte(s[from]) {
        lemma_indent_end_bound(s, from + 1, to);
    }
}

fn starts_text(s: &[u8], at: usize, to: usize) -> (yes: bool)
    requires
        at <= to <= s.len(),
    ensures
        yes == line_with_text(s@, at as int, to as int),
{
    if at > 0 && s[at - 1] != NEWLINE {
        return false;
    }
    let mut k: usize = at;
    while k < to && (s[k] == 32 || s[k] == 9 || s[k] == 13)
        invariant
            at <= k <= to <= s.len(),
            blanks_end(s@, k as int, to as int) == blanks_end(s@, at as int, to as int),
        decreases to - k,
    {
        k = k + 1;
    }
    k < to && s[k] != NEWLINE
}

fn find_indent(s: &[u8], at: usize, to: usize) -> (indent: usize)
    requires
        at <= to <= s.len(),
    ensures
        indent == indent_of(s@, at as int, to as int),
        indent <= to - at,
{
    let mut k: usize = at;
    while k < to && (s[k] == 32 || s[k] == 9)
        invariant
            at <= k <= to <= s.len(),
            indent_end(s@, k as int, to as int) == indent_end(s@, at as int, to as int),
        decreases to - k,
    {
        k = k + 1;
    }
    k - at
}

fn find_least_indent(s: &[u8], from: usize, to: usize) -> (indent: Option<usize>)
    requires
        to <= s.len(),
    ensures
        match indent {
            Some(i) => least_indent(s@, from as int, to as int, to as int) == Some(i as int),
            None => least_indent(s@, from as int, to as int, to as int) is None,
        },
        indent matches Some(i) ==> i <= to,
{
    let mut least: Option<usize> = None;
    if to < from {
        return least;
    }
    for at in from..to
        invariant
            to <= s.len(),
            match least {
                Some(i) => least_indent(s@, from as int, at as int, to as int) == Some(i as int),
                None => least_indent(s@, from as int, at as int, to as int) is None,
            },
            least matches Some(i) ==> i <= to,
    {
        if starts_text(s, at, to) {
            let mine = find_indent(s, at, to);
            least = match least {
                Some(i) => if i <= mine {
                    Some(i)
                } else {
                    Some(mine)
                },
                None => Some(mine),
            };
        }
    }
    least
}

fn find_body_start(s: &[u8], line: usize, first: usize) -> (start: usize)
    requires
        line == line_start(s@, first as int),
        line <= first <= s.len(),
    ensures
        start == body_start(s@, first as int),
{
    let mut k: usize = line;
    while k < first && (s[k] == 32 || s[k] == 9 || s[k] == 13)
        invariant
            line <= k <= first <= s.len(),
            blanks_end(s@, k as int, first as int) == blanks_end(s@, line as int, first as int),
        decreases first - k,
    {
        k = k + 1;
    }
    if k == first {
        line
    } else {
        first
    }
}

/// Finds the content of a block whose items run from `first_byte` to `last_byte`.
pub fn compute_fink_block_content(src: &str, first_byte: u32, last_byte: u32) -> (content: Option<
    BlockContent,
>)
    ensures
        content == block_content(bytes_of(src@), first_byte, last_byte),
{
    let s = src.as_bytes();
    if first_byte as usize >= s.len() {
        return None;
    }
    let line = find_line_start(s, first_byte as usize);
    let first_col = (first_byte as usize - line) as u32;
    let first_line = count_newlines(s, line);
    let end = if last_byte as usize <= s.len() {
        last_byte
    } else {
        s.len() as u32
    };
    let body = find_body_start(s, line, first_byte as usize);
    let strip = match find_least_indent(s, body, end as usize) {
        Some(i) => i as u32,
        None => first_col,
    };
    Some(BlockContent { start: first_byte, end, strip, first_line, first_col })
}

proof fn lemma_least_indent(s: Seq<u8>, from: int, upto: int, to: int)
    requires
        0 <= from,
        upto <= to,
    ensures
        match least_indent(s, from, upto, to) {
            Some(i) => {
                &&& 0 <= i <= to
                &&& exists|at: int|
                    from <= at < upto && #[trigger] line_with_text(s, at, to) && indent_of(
                        s,
                        at,
                        to,
                    ) == i
                &&& forall|at: int|
                    from <= at < upto && #[trigger] line_with_text(s, at, to) ==> i <= indent_of(
                        s,
                        at,
                        to,
                    )
            },
            None => forall|at: int| from <= at < upto ==> !#[trigger] line_with_text(s, at, to),
        },
    decreases upto - from,
{
    if from < upto {
        lemma_least_indent(s, from, upto - 1, to);
        lemma_indent_end_bound(s, upto - 1, to);
        let earlier = least_indent(s, from, upto - 1, to);
        if earlier is Some {
            let at = choose|at: int|
                from <= at < upto - 1 && #[trigger] line_with_text(s, at, to) && indent_of(
                    s,
                    at,
                    to,
                ) == earlier->0;
            assert(line_with_text(s, at, to));
        }
    }
}

/// The dedent of a block is the indentation that its own lines have in common: every line
/// that is not blank has it, and one has no more. A block without such lines is dedented by
/// the column of its first item.
pub proof fn dedent_is_the_common_indent(s: Seq<u8>, first: u32, last: u32)
    requires
        block_content(s, first, last) is Some,
    ensures
        ({
            let c = block_content(s, first, last)->0;
            let body = body_start(s, first as int);
            let end = c.end as int;
            let some = exists|at: int|
                body <= at < end && #[trigger] line_with_text(s, at, end);
            &&& forall|at: int|
                body <= at < end && #[trigger] line_with_text(s, at, end) ==> c.strip <= indent_of(
                    s,
                    at,
                    end,
                )
            &&& some ==> exists|at: int|
                body <= at < end && #[trigger] line_with_text(s, at, end) && indent_of(s, at, end)
                    == c.strip
            &&& !some ==> c.strip == c.first_col
        }),
{
    let c = block_content(s, first, last)->0;
    lemma_line_start_bound(s, first as int);
    lemma_least_indent(s, body_start(s, first as int), c.end as int, c.end as int);
}

/// What is cut off the end of a comment.
pub open spec fn is_blank_byte(b: u8) -> bool {
    b == 32 || b == 9 || b == 13
}

/// Where the blanks at the end of `s[from..to]` start.
pub open spec fn blanks_start(s: Seq<u8>, from: int, to: int) -> int
    decreases to,
{
    if to > 0 && to > from && is_blank_byte(s[to - 1]) {
        blanks_start(s, from, to - 1)
    } else {
        to
    }
}

/// Whether the line at `at` starts with exactly `indent` spaces and then `prefix`.
pub open spec fn marked_line(s: Seq<u8>, at: int, indent: int, prefix: Seq<u8>) -> bool {
    &&& at + indent + prefix.len() <= s.len()
    &&& forall|k: int| at <= k < at + indent ==> #[trigger] s[k] == 32
    &&& s.subrange(at + indent, at + indent + prefix.len()) == prefix
}

/// The rest of the comment that stands on the line behind offset `from`, if that line is
/// indented by `indent` spaces and starts with `prefix`; without the blanks at its end.
pub open spec fn comment_after(s: Seq<u8>, from: int, indent: int, prefix: Seq<u8>) -> Option<
    Seq<u8>,
> {
    let line = line_end(s, from) + 1;
    if line > s.len() || !marked_line(s, line, indent, prefix) {
        None
    } else {
        let start = line + indent + prefix.len();
        Some(s.subrange(start, blanks_start(s, start, line_end(s, start))))
    }
}

/// The text of `comment_after`.
pub open spec fn comment_text(src: Seq<char>, from: int, indent: int, prefix: Seq<char>) -> Option<
    Seq<char>,
> {
    match comment_after(bytes_of(src), from, indent, bytes_of(prefix)) {
        Some(b) => Some(decode_utf8(b)),
        None => None,
    }
}

proof fn lemma_blanks_start_bound(s: Seq<u8>, from: int, to: int)
    requires
        0 <= from <= to <= s.len(),
    ensures
        from <= blanks_start(s, from, to) <= to,
        blanks_start(s, from, to) < to ==> is_blank_byte(s[blanks_start(s, from, to)]),
    decreases to,
{
    if to > 0 && to > from && is_blank_byte(s[to - 1]) {
        lemma_blanks_start_bound(s, from, to - 1);
    }
}

/// A valid text that stands at a character boundary of a valid text ends at one.
proof fn lemma_boundary_behind(s: Seq<u8>, at: int, part: Seq<u8>)
    requires
        valid_utf8(s),
        valid_utf8(part),
        0 <= at,
        at + part.len() <= s.len(),
        is_char_boundary(s, at),
        s.subrange(at, at + part.len()) == part,
    ensures
        is_char_boundary(s, at + part.len()),
{
    let behind = at + part.len();
    if behind == s.len() {
        is_char_boundary_start_end_of_seq(s);
    } else {
        let tail = s.subrange(at, s.len() as int);
        valid_utf8_split(s, at);
        let rest = tail.subrange(part.len() as int, tail.len() as int);
        assert(tail.subrange(0, part.len() as int) =~= part);
        if !valid_utf8(rest) {
            partial_valid_partial_invalid_utf8(tail, part.len() as int);
        }
        assert(rest[0] == s[behind]);
        is_char_boundary_iff_not_is_continuation_byte(s, behind);
    }
}

fn bytes_match(s: &[u8], at: usize, part: &[u8]) -> (yes: bool)
    requires
        at <= s.len(),
    ensures
        yes == (at + part.len() <= s.len() && s@.subrange(at as int, at + part.len()) == part@),
{
    if part.len() > s.len() - at {
        return false;
    }
    for i in 0..part.len()
        invariant
            at + part.len() <= s.len(),
            forall|k: int| 0 <= k < i ==> s@[at + k] == part@[k],
    {
        if s[at + i] != part[i] {
            assert(s@.subrange(at as int, at + part.len())[i as int] != part@[i as int]);
            return false;
        }
    }
    assert(s@.subrange(at as int, at + part.len()) =~= part@);
    true
}

/// Reads the rest of the comment on the line behind `from_byte`, if that line is indented by
/// exactly `indent` spaces and starts with `prefix`.
pub fn scan_sm_comment_after(src: &str, from_byte: u32, indent: u32, prefix: &str) -> (payload:
    Option<String>)
    ensures
        opt_text(payload) == comment_text(src@, from_byte as int, indent as int, prefix@),
{
    let s = src.as_bytes();
    let p = prefix.as_bytes();
    proof {
        encode_utf8_valid_utf8(src@);
        encode_utf8_valid_utf8(prefix@);
        lemma_line_end_bound(s@, from_byte as int);
    }
    let newline = find_line_end(s, from_byte as usize);
    if newline >= s.len() {
        return None;
    }
    let line = newline + 1;
    let mut i: usize = line;
    let mut spaces: u32 = 0;
    while spaces < indent && i < s.len() && s[i] == 32
        invariant
            spaces <= indent,
            i == line + spaces,
            line <= i <= s.len(),
            forall|k: int| line <= k < i ==> s@[k] == 32,
        decreases indent - spaces,
    {
        spaces = spaces + 1;
        i = i + 1;
    }
    if spaces < indent {
        proof {
            if marked_line(s@, line as int, indent as int, p@) {
                assert(s@[line + spaces] == 32);
            }
        }
        return None;
    }
    if !bytes_match(s, i, p) {
        return None;
    }
    let start = i + p.len();
    let eol = find_line_end(s, start);
    let mut end: usize = eol;
    while end > start && (s[end - 1] == 32 || s[end - 1] == 9 || s[end - 1] == 13)
        invariant
            start <= end <= eol <= s.len(),
            blanks_start(s@, start as int, end as int) == blanks_start(
                s@,
                start as int,
                eol as int,
            ),
        decreases end,
    {
        end = end - 1;
    }
    proof {
        lemma_ascii_boundaries(s@, newline as int);
        if i > line {
            assert(s@[i - 1] == 32);
            lemma_ascii_boundaries(s@, i - 1);
        }
        lemma_boundary_behind(s@, i as int, p@);
        lemma_line_end_bound(s@, start as int);
        lemma_blanks_start_bound(s@, start as int, eol as int);
        if end < s.len() {
            lemma_ascii_boundaries(s@, end as int);
        } else {
            is_char_boundary_start_end_of_seq(s@);
        }
        assert(marked_line(s@, line as int, indent as int, p@));
    }
    Some(slice(src, start, end).to_owned())
}

/// What a comment carries is whole characters.
pub(crate) proof fn lemma_comment_valid(src: Seq<char>, from: int, indent: int, prefix: Seq<char>)
    requires
        0 <= from,
        0 <= indent,
    ensures
        comment_after(bytes_of(src), from, indent, bytes_of(prefix)) matches Some(b) ==> valid_utf8(
            b,
        ),
{
    let s = bytes_of(src);
    let p = bytes_of(prefix);
    encode_utf8_valid_utf8(src);
    encode_utf8_valid_utf8(prefix);
    if comment_after(s, from, indent, p) is Some {
        lemma_line_end_bound(s, from);
        let newline = line_end(s, from);
        let i = newline + 1 + indent;
        let start = i + p.len();
        let eol = line_end(s, start);
        lemma_ascii_boundaries(s, newline);
        if indent > 0 {
            assert(s[i - 1] == 32);
            lemma_ascii_boundaries(s, i - 1);
        }
        lemma_boundary_behind(s, i, p);
        lemma_line_end_bound(s, start);
        lemma_blanks_start_bound(s, start, eol);
        let end = blanks_start(s, start, eol);
        if end < s.len() {
            lemma_ascii_boundaries(s, end);
        } else {
            is_char_boundary_start_end_of_seq(s);
        }
        lemma_text_pieces(src, start, end);
        encode_utf8_valid_utf8(text_between(src, start, end));
    }
}

/// What may stand between the last line of a block and its end.
pub open spec fn is_trailing(c: char) -> bool {
    c == '\n' || c == ' ' || c == '\r' || c == '\t'
}

/// Where the trailing white space of `t` starts.
pub open spec fn text_end(t: Seq<char>) -> int
    decreases t.len(),
{
    if t.len() > 0 && is_trailing(t.last()) {
        text_end(t.drop_last())
    } else {
        t.len() as int
    }
}

/// Where the line that ends at `end` starts.
pub open spec fn line_begin(t: Seq<char>, end: int) -> int
    decreases end,
{
    if end <= 0 {
        0
    } else if t[end - 1] == '\n' {
        end
    } else {
        line_begin(t, end - 1)
    }
}

/// Splits off the last line of `t` that is not blank, if it starts with `prefix` behind its
/// indentation: the text in front of that line and of the line end before it, and the rest
/// of the line without white space around it.
pub open spec fn split_sm_line(t: Seq<char>, prefix: Seq<char>) -> (
    Seq<char>,
    Option<Seq<char>>,
) {
    let end = text_end(t);
    let start = line_begin(t, end);
    let line = trimmed_start(t.subrange(start, end));
    if prefix.is_prefix_of(line) {
        (
            t.take(
                if start > 0 {
                    start - 1
                } else {
                    0
                },
            ),
            Some(trimmed(line.skip(prefix.len() as int))),
        )
    } else {
        (t, None)
    }
}

fn chars_match(v: &Vec<char>, from: usize, to: usize, prefix: &Vec<char>) -> (yes: bool)
    requires
        from <= to <= v.len(),
    ensures
        yes == prefix@.is_prefix_of(v@.subrange(from as int, to as int)),
{
    let ghost line = v@.subrange(from as int, to as int);
    if prefix.len() > to - from {
        return false;
    }
    for i in 0..prefix.len()
        invariant
            from + prefix.len() <= to <= v.len(),
            line == v@.subrange(from as int, to as int),
            forall|k: int| 0 <= k < i ==> line[k] == prefix@[k],
    {
        if v[from + i] != prefix[i] {
            assert(line[i as int] != prefix@[i as int]);
            assert(line.subrange(0, prefix.len() as int)[i as int] == line[i as int]);
            return false;
        }
    }
    assert(line.subrange(0, prefix.len() as int) =~= prefix@);
    true
}

/// Splits a block's text at its trailing comment line, if that line starts with `prefix`.
pub fn split_trailing_sm_line<'a>(text: &'a str, prefix: &str) -> (split: (&'a str, Option<
    String,
>))
    ensures
        (split.0@, opt_text(split.1)) == split_sm_line(text@, prefix@),
{
    let chars = chars_of(text);
    let wanted = chars_of(prefix);
    let ghost t = text@;
    let mut end: usize = chars.len();
    proof {
        assert(t.take(end as int) =~= t);
    }
    while end > 0 && (chars[end - 1] == '\n' || chars[end - 1] == ' ' || chars[end - 1] == '\r'
        || chars[end - 1] == '\t')
        invariant
            chars@ == t,
            end <= chars.len(),
            text_end(t.take(end as int)) == text_end(t),
        decreases end,
    {
        assert(t.take(end as int).drop_last() =~= t.take(end - 1));
        end = end - 1;
    }
    assert(text_end(t) == end);
    let mut start: usize = end;
    while start > 0 && chars[start - 1] != '\n'
        invariant
            chars@ == t,
            start <= end <= chars.len(),
            line_begin(t, start as int) == line_begin(t, end as int),
        decreases start,
    {
        start = start - 1;
    }
    let at = skip_white(&chars, start, end);
    if !chars_match(&chars, at, end, &wanted) {
        return (text, None);
    }
    let rest = at + wanted.len();
    let from = skip_white(&chars, rest, end);
    let to = skip_white_back(&chars, from, end);
    proof {
        assert(t.subrange(at as int, end as int).skip(wanted.len() as int) =~= t.subrange(
            rest as int,
            end as int,
        ));
    }
    let payload = string_of(&chars, from, to);
    let chop = if start > 0 {
        start - 1
    } else {
        0
    };
    assert(t.subrange(0, chop as int) =~= t.take(chop as int));
    (text.substring_char(0, chop), Some(payload))
}

/// The trailing white space starts within the text.
pub(crate) proof fn lemma_text_end_bound(t: Seq<char>)
    ensures
        0 <= text_end(t) <= t.len(),
    decreases t.len(),
{
    if t.len() > 0 && is_trailing(t.last()) {
        lemma_text_end_bound(t.drop_last());
    }
}

/// A line starts at or before its end.
pub(crate) proof fn lemma_line_begin_bound(t: Seq<char>, end: int)
    requires
        0 <= end,
    ensures
        0 <= line_begin(t, end) <= end,
    decreases end,
{
    if end > 0 && t[end - 1] != '\n' {
        lemma_line_begin_bound(t, end - 1);
    }
}

proof fn lemma_text_end(t: Seq<char>, end: int)
    requires
        0 <= end <= t.len(),
        forall|k: int| end <= k < t.len() ==> is_trailing(#[trigger] t[k]),
        end > 0 ==> !is_trailing(t[end - 1]),
    ensures
        text_end(t) == end,
    decreases t.len(),
{
    if end < t.len() {
        lemma_text_end(t.drop_last(), end);
    }
}

proof fn lemma_line_begin(t: Seq<char>, start: int, end: int)
    requires
        0 <= start <= end <= t.len(),
        start > 0 ==> t[start - 1] == '\n',
        forall|k: int| start <= k < end ==> #[trigger] t[k] != '\n',
    ensures
        line_begin(t, end) == start,
    decreases end,
{
    if start < end {
        lemma_line_begin(t, start, end - 1);
    }
}

proof fn lemma_trimmed_start(s: Seq<char>, at: int)
    requires
        0 <= at <= s.len(),
        forall|k: int| 0 <= k < at ==> is_white_space(#[trigger] s[k]),
        at < s.len() ==> !is_white_space(s[at]),
    ensures
        trimmed_start(s) == s.skip(at),
    decreases at,
{
    if at > 0 {
        assert(s.skip(1).skip(at - 1) =~= s.skip(at));
        lemma_trimmed_start(s.skip(1), at - 1);
    } else {
        assert(s.skip(0) =~= s);
    }
}

/// A text without white space at its ends does not end in white space.
proof fn lemma_trimmed_last(s: Seq<char>)
    requires
        trimmed(s) == s,
    ensures
        s.len() > 0 ==> !is_white_space(s.last()),
{
    let front = trimmed_start(s);
    lemma_trimmed_start_len(s);
    lemma_trimmed_end_last(front);
}

proof fn lemma_trimmed_start_len(s: Seq<char>)
    ensures
        trimmed_start(s).len() <= s.len(),
    decreases s.len(),
{
    if s.len() > 0 && is_white_space(s[0]) {
        lemma_trimmed_start_len(s.skip(1));
    }
}

proof fn lemma_trimmed_end_last(s: Seq<char>)
    ensures
        trimmed_end(s).len() <= s.len(),
        trimmed_end(s).len() > 0 ==> !is_white_space(trimmed_end(s).last()),
    decreases s.len(),
{
    if s.len() > 0 && is_white_space(s.last()) {
        lemma_trimmed_end_last(s.drop_last());
    }
}

/// A comment line written behind a block's text is found again: splitting gives back the
/// text and the payload, whatever white space follows.
pub proof fn trailing_comment_is_found(
    text: Seq<char>,
    indent: Seq<char>,
    prefix: Seq<char>,
    payload: Seq<char>,
    tail: Seq<char>,
)
    requires
        forall|k: int| 0 <= k < indent.len() ==> #[trigger] indent[k] == ' ' || indent[k] == '\t',
        prefix.len() > 0,
        !is_white_space(prefix[0]),
        payload.len() == 0 ==> !is_trailing(prefix.last()),
        forall|k: int| 0 <= k < prefix.len() ==> #[trigger] prefix[k] != '\n',
        forall|k: int| 0 <= k < payload.len() ==> #[trigger] payload[k] != '\n',
        trimmed(payload) == payload,
        forall|k: int| 0 <= k < tail.len() ==> is_trailing(#[trigger] tail[k]),
    ensures
        split_sm_line(text + seq!['\n'] + indent + prefix + payload + tail, prefix) == (
            text,
            Some(payload),
        ),
{
    let t = text + seq!['\n'] + indent + prefix + payload + tail;
    let start = text.len() + 1;
    let mark = start + indent.len();
    let body = mark + prefix.len();
    let end = body + payload.len();
    assert forall|k: int| mark <= k < body implies #[trigger] t[k] == prefix[k - mark] by {}
    assert forall|k: int| body <= k < end implies #[trigger] t[k] == payload[k - body] by {}
    lemma_trimmed_last(payload);
    assert(t[end - 1] == (if payload.len() > 0 {
        payload.last()
    } else {
        prefix.last()
    }));
    assert forall|k: int| end <= k < t.len() implies is_trailing(#[trigger] t[k]) by {
        assert(t[k] == tail[k - end]);
    }
    lemma_text_end(t, end as int);
    assert forall|k: int| start <= k < end implies #[trigger] t[k] != '\n' by {
        if k < mark {
            assert(t[k] == indent[k - start]);
        } else if k < body {
            assert(t[k] == prefix[k - mark]);
        } else {
            assert(t[k] == payload[k - body]);
        }
    }
    lemma_line_begin(t, start as int, end as int);
    let line = t.subrange(start as int, end as int);
    assert forall|k: int| 0 <= k < indent.len() implies is_white_space(#[trigger] line[k]) by {
        assert(line[k] == indent[k]);
    }
    assert(line[indent.len() as int] == prefix[0]);
    lemma_trimmed_start(line, indent.len() as int);
    let marked = line.skip(indent.len() as int);
    assert(marked =~= prefix + payload);
    assert(marked.subrange(0, prefix.len() as int) =~= prefix);
    assert(marked.skip(prefix.len() as int) =~= payload);
    assert(t.take(start - 1) =~= text);
}

proof fn lemma_line_end(s: Seq<u8>, from: int, end: int)
    requires
        0 <= from <= end <= s.len(),
        forall|k: int| from <= k < end ==> #[trigger] s[k] != NEWLINE,
        end < s.len() ==> s[end] == NEWLINE,
    ensures
        line_end(s, from) == end,
    decreases end - from,
{
    if from < end {
        lemma_line_end(s, from + 1, end);
    }
}

proof fn lemma_blanks_start(s: Seq<u8>, from: int, end: int, to: int)
    requires
        0 <= from <= end <= to <= s.len(),
        forall|k: int| end <= k < to ==> is_blank_byte(#[trigger] s[k]),
        from < end ==> !is_blank_byte(s[end - 1]),
    ensures
        blanks_start(s, from, to) == end,
    decreases to,
{
    if end < to {
        lemma_blanks_start(s, from, end, to - 1);
    }
}

/// A comment on the line behind `from`, indented by `indent` spaces and marked by `prefix`,
/// is read in full, without the blanks at its end.
pub proof fn following_comment_is_read(
    head: Seq<u8>,
    from: int,
    indent: nat,
    prefix: Seq<u8>,
    payload: Seq<u8>,
    blanks: Seq<u8>,
    rest: Seq<u8>,
)
    requires
        0 <= from <= head.len(),
        forall|k: int| from <= k < head.len() ==> #[trigger] head[k] != NEWLINE,
        forall|k: int| 0 <= k < payload.len() ==> #[trigger] payload[k] != NEWLINE,
        payload.len() > 0 ==> !is_blank_byte(payload.last()),
        forall|k: int| 0 <= k < blanks.len() ==> is_blank_byte(#[trigger] blanks[k]),
        rest.len() > 0 ==> rest[0] == NEWLINE,
    ensures
        comment_after(
            head + seq![NEWLINE] + Seq::new(indent, |k: int| 32u8) + prefix + payload + blanks
                + rest,
            from,
            indent as int,
            prefix,
        ) == Some(payload),
{
    let spaces = Seq::new(indent, |k: int| 32u8);
    let s = head + seq![NEWLINE] + spaces + prefix + payload + blanks + rest;
    let line = head.len() + 1;
    let mark = line + indent;
    let start = mark + prefix.len();
    let end = start + payload.len();
    let eol = end + blanks.len();
    lemma_line_end(s, from, head.len() as int);
    assert(s.subrange(mark as int, start as int) =~= prefix);
    assert forall|k: int| start <= k < eol implies #[trigger] s[k] != NEWLINE by {
        if k < end {
            assert(s[k] == payload[k - start]);
        } else {
            assert(s[k] == blanks[k - end]);
        }
    }
    if rest.len() > 0 {
        assert(s[eol as int] == rest[0]);
    }
    lemma_line_end(s, start as int, eol as int);
    assert forall|k: int| end <= k < eol implies is_blank_byte(#[trigger] s[k]) by {
        assert(s[k] == blanks[k - end]);
    }
    if payload.len() > 0 {
        assert(s[end - 1] == payload.last());
    }
    lemma_blanks_start(s, start as int, end as int, eol as int);
    assert(s.subrange(start as int, end as int) =~= payload);
}

} // verus!
