//! Source texts as bytes: lines, and slices at byte offsets.
use vstd::prelude::*;
use vstd::string::*;
use vstd::utf8::*;

verus! {

/// The byte that ends a line.
pub const NEWLINE: u8 = 10;

/// How many line ends `s` holds.
pub open spec fn newlines(s: Seq<u8>) -> nat
    decreases s.len(),
{
    if s.len() == 0 {
        0
    } else if s.last() == NEWLINE {
        newlines(s.drop_last()) + 1
    } else {
        newlines(s.drop_last())
    }
}

/// Where the line that holds offset `at` starts.
pub open spec fn line_start(s: Seq<u8>, at: int) -> int
    decreases at,
{
    if at <= 0 {
        0
    } else if s[at - 1] == NEWLINE {
        at
    } else {
        line_start(s, at - 1)
    }
}

/// The offset of the first line end at or behind `from`; the end of `s` if there is none.
pub open spec fn line_end(s: Seq<u8>, from: int) -> int
    decreases s.len() - from,
{
    if from >= s.len() || s[from] == NEWLINE {
        from
    } else {
        line_end(s, from + 1)
    }
}

/// The UTF-8 bytes of `text`.
pub open spec fn bytes_of(text: Seq<char>) -> Seq<u8> {
    encode_utf8(text)
}

/// The text between two byte offsets of `text`.
pub open spec fn text_between(text: Seq<char>, from: int, to: int) -> Seq<char> {
    decode_utf8(bytes_of(text).subrange(from, to))
}

/// Whether `text` can be sliced at the byte offsets `from` and `to`: they are in order, in
/// the text, and neither stands inside a character.
pub open spec fn sliceable(text: Seq<char>, from: int, to: int) -> bool {
    &&& 0 <= from <= to <= bytes_of(text).len()
    &&& is_char_boundary(bytes_of(text), from)
    &&& is_char_boundary(bytes_of(text), to)
}

/// A line starts at or before any offset in it, behind a line end or at the front.
pub(crate) proof fn lemma_line_start_bound(s: Seq<u8>, at: int)
    requires
        0 <= at <= s.len(),
    ensures
        0 <= line_start(s, at) <= at,
        line_start(s, at) > 0 ==> s[line_start(s, at) - 1] == NEWLINE,
    decreases at,
{
    if at > 0 && s[at - 1] != NEWLINE {
        lemma_line_start_bound(s, at - 1);
    }
}

/// The next line end is at or behind the offset it is looked for from.
pub(crate) proof fn lemma_line_end_bound(s: Seq<u8>, from: int)
    requires
        0 <= from,
    ensures
        from <= line_end(s, from),
        from <= s.len() ==> line_end(s, from) <= s.len(),
        line_end(s, from) < s.len() ==> s[line_end(s, from)] == NEWLINE,
    decreases s.len() - from,
{
    if from < s.len() && s[from] != NEWLINE {
        lemma_line_end_bound(s, from + 1);
    }
}

/// In valid UTF-8 a byte below 0x80 is a character of its own: both of its ends are
/// character boundaries.
pub(crate) proof fn lemma_ascii_boundaries(s: Seq<u8>, i: int)
    requires
        valid_utf8(s),
        0 <= i < s.len(),
        s[i] < 0x80,
    ensures
        is_char_boundary(s, i),
        is_char_boundary(s, i + 1),
    decreases s.len(),
{
    is_char_boundary_iff_not_is_continuation_byte(s, i);
    let w = length_of_first_scalar(s);
    if i < w {
        assert(i == 0);
        reveal_with_fuel(is_char_boundary, 2);
    } else {
        lemma_ascii_boundaries(pop_first_scalar(s), i - w);
        reveal_with_fuel(is_char_boundary, 2);
    }
}

proof fn lemma_boundary_in_prefix(s: Seq<u8>, from: int, to: int)
    requires
        valid_utf8(s),
        is_char_boundary(s, from),
        is_char_boundary(s, to),
        0 <= from <= to <= s.len(),
    ensures
        valid_utf8(s.take(to)),
        is_char_boundary(s.take(to), from),
{
    let head = s.take(to);
    assert(head =~= s.subrange(0, to));
    valid_utf8_split(s, to);
    if from < to {
        is_char_boundary_iff_not_is_continuation_byte(s, from);
        is_char_boundary_iff_not_is_continuation_byte(head, from);
        assert(head[from] == s[from]);
    } else {
        is_char_boundary_start_end_of_seq(head);
    }
}

/// The slice of `s` between two byte offsets.
pub fn slice<'a>(s: &'a str, from: usize, to: usize) -> (r: &'a str)
    requires
        sliceable(s@, from as int, to as int),
    ensures
        r@ == text_between(s@, from as int, to as int),
        bytes_of(r@) == bytes_of(s@).subrange(from as int, to as int),
{
    broadcast use group_utf8_lib;

    proof {
        lemma_boundary_in_prefix(bytes_of(s@), from as int, to as int);
    }
    let head = s.split_at(to).0;
    assert(bytes_of(head@) =~= bytes_of(s@).take(to as int));
    let r = head.split_at(from).1;
    assert(bytes_of(r@) =~= bytes_of(s@).subrange(from as int, to as int));
    assert(decode_utf8(encode_utf8(r@)) == r@);
    r
}

/// The pieces of a text around two byte offsets make up the text.
pub(crate) proof fn lemma_text_pieces(text: Seq<char>, from: int, to: int)
    requires
        sliceable(text, from, to),
    ensures
        bytes_of(text_between(text, 0, from)) == bytes_of(text).subrange(0, from),
        bytes_of(text_between(text, from, to)) == bytes_of(text).subrange(from, to),
        (text_between(text, 0, from) + text_between(text, from, to)).is_prefix_of(text),
{
    broadcast use group_utf8_lib;

    let s = bytes_of(text);
    let n = s.len() as int;
    let (a, b, c) = (s.subrange(0, from), s.subrange(from, to), s.subrange(to, n));
    let head = s.take(to);
    assert(head =~= s.subrange(0, to));
    lemma_boundary_in_prefix(s, from, to);
    valid_utf8_split(head, from);
    valid_utf8_split(s, to);
    assert(head.subrange(0, from) =~= a);
    assert(head.subrange(from, to) =~= b);
    let pieces = decode_utf8(a) + decode_utf8(b);
    let rest = decode_utf8(c);
    lemma_bytes_concat(decode_utf8(a), decode_utf8(b));
    lemma_bytes_concat(pieces, rest);
    assert(a + b + c =~= s);
    assert(decode_utf8(encode_utf8(pieces + rest)) == pieces + rest);
    assert(decode_utf8(encode_utf8(text)) == text);
    assert((pieces + rest).subrange(0, pieces.len() as int) =~= pieces);
}

/// Counts the line ends in front of offset `upto`.
pub fn count_newlines(s: &[u8], upto: usize) -> (n: u32)
    requires
        upto <= s.len(),
        upto <= u32::MAX,
    ensures
        n == newlines(s@.take(upto as int)),
        n <= upto,
{
    let mut n: u32 = 0;
    for i in 0..upto
        invariant
            upto <= s.len(),
            upto <= u32::MAX,
            n == newlines(s@.take(i as int)),
            n <= i,
    {
        proof {
            assert(s@.take(i + 1).drop_last() =~= s@.take(i as int));
        }
        if s[i] == NEWLINE {
            n = n + 1;
        }
    }
    n
}

/// Finds where the line that holds offset `at` starts.
pub fn find_line_start(s: &[u8], at: usize) -> (start: usize)
    requires
        at <= s.len(),
    ensures
        start == line_start(s@, at as int),
        start <= at,
{
    let mut start: usize = at;
    while start > 0 && s[start - 1] != NEWLINE
        invariant
            start <= at <= s.len(),
            line_start(s@, start as int) == line_start(s@, at as int),
        decreases start,
    {
        start = start - 1;
    }
    start
}

/// Finds the first line end at or behind `from`.
pub fn find_line_end(s: &[u8], from: usize) -> (end: usize)
    ensures
        end == line_end(s@, from as int),
        from <= end,
        from <= s.len() ==> end <= s.len(),
{
    let mut end: usize = from;
    while end < s.len() && s[end] != NEWLINE
        invariant
            from <= end,
            from <= s.len() ==> end <= s.len(),
            line_end(s@, end as int) == line_end(s@, from as int),
        decreases s.len() - end,
    {
        end = end + 1;
    }
    end
}

/// The bytes of two texts, one after the other.
pub(crate) proof fn lemma_bytes_concat(a: Seq<char>, b: Seq<char>)
    ensures
        bytes_of(a + b) == bytes_of(a) + bytes_of(b),
    decreases a.len(),
{
    if a.len() == 0 {
        assert(a + b =~= b);
        assert(bytes_of(a) + bytes_of(b) =~= bytes_of(b));
    } else {
        assert((a + b).drop_first() =~= a.drop_first() + b);
        lemma_bytes_concat(a.drop_first(), b);
        assert(bytes_of(a + b) =~= bytes_of(a) + bytes_of(b));
    }
}

} // verus!
