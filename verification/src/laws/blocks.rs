//! Laws of the blocks of source-map pairs.
use vstd::prelude::*;
use vstd::utf8::*;
use crate::blockmap::{cursor, lemma_cursor_concat, place_at};
use crate::bytes::{
    bytes_of, lemma_bytes_concat, lemma_text_pieces, line_start, newlines, sliceable, text_between,
};
use crate::laws::comments::{
    at_column, carries, comment_behind_a_block, ends_in_comment, is_dedent, lemma_column,
    lemma_dedent, lemma_lines_before, lines_before, trailing_comment_is_split_off, CommentLine,
};
use crate::laws::places::{
    byte_of, byte_of_some, is_place, kept_bytes, leaves, lemma_cursor, lemma_map_cursor,
};
use crate::smblock::{
    block_fits, block_of, block_start, block_strip, block_text, lemma_split_prefix, literal_indent,
    raw_line_start, raw_start, spaces_end,
};
use crate::smtext::{block_content, comment_after, comment_text, lemma_comment_valid, split_sm_line};
use crate::syntax::Node;

verus! {

/// Whether `node` is a block with items, the first of which starts in the source.
pub open spec fn is_named_block(src: Seq<char>, node: Node) -> bool {
    &&& node.kind is Block
    &&& node.kind->Block_body@.len() > 0
    &&& node.kind->Block_body@[0].loc.start.idx < bytes_of(src).len()
}

/// Where the first item of a named block starts.
pub open spec fn named_from(node: Node) -> int {
    node.kind->Block_body@[0].loc.start.idx as int
}

/// Where the last item of a named block ends, or the source.
pub open spec fn named_to(src: Seq<char>, node: Node) -> int {
    let last = node.kind->Block_body@.last().loc.end.idx as int;
    if last <= bytes_of(src).len() {
        last
    } else {
        bytes_of(src).len() as int
    }
}

/// Whether `node` is a raw template that opens a block, with something between its tokens.
pub open spec fn is_raw_text(src: Seq<char>, node: Node) -> bool {
    &&& node.kind is StrRawTempl
    &&& node.kind->open.src@ == "\":"@
    &&& raw_from(node) < raw_to(node) <= bytes_of(src).len()
}

/// Where the opening token of a raw template ends.
pub open spec fn raw_from(node: Node) -> int {
    node.kind->open.loc.end.idx as int
}

/// Where the closing token of a raw template starts.
pub open spec fn raw_to(node: Node) -> int {
    node.kind->close.loc.start.idx as int
}

/// Whether `n` is the indentation of the first string literal among `items`; 0 if there is
/// none.
pub open spec fn first_indent(items: Seq<Node>, n: int) -> bool {
    ||| n == 0 && forall|k: int| 0 <= k < items.len() ==> !((#[trigger] items[k]).kind is LitStr)
    ||| exists|k: int|
        0 <= k < items.len() && (#[trigger] items[k]).kind is LitStr && items[k].kind->indent == n
            && (forall|j: int| 0 <= j < k ==> !((#[trigger] items[j]).kind is LitStr))
}

/// Whether the content of a raw block between `from` and `to` starts at `at`: behind a line end
/// that stands at the front, and behind at most `strip` spaces of that line. A block of nothing
/// but spaces keeps them.
pub open spec fn raw_begins(s: Seq<u8>, from: int, to: int, strip: int, at: int) -> bool {
    let line = if s[from] == 10 {
        from + 1
    } else {
        from
    };
    &&& line <= at <= to
    &&& at - line <= strip
    &&& forall|k: int| line <= k < at ==> #[trigger] s[k] == 32
    &&& if forall|k: int| line <= k < to ==> #[trigger] s[k] == 32 {
        at == line
    } else {
        at - line == strip || s[at] != 32
    }
}

/// Whether `text` stands in the source from byte `from` up to byte `to`, behind `n`
/// characters.
pub open spec fn cut_out(src: Seq<char>, from: int, to: int, n: int, text: Seq<char>) -> bool {
    &&& 0 <= n
    &&& n + text.len() <= src.len()
    &&& text == src.subrange(n, n + text.len())
    &&& bytes_of(src.take(n)).len() == from
    &&& bytes_of(text).len() == to - from
}

/// Where a block lies: its text stands behind the first `ahead` characters of the source and is
/// dedented by `strip`.
pub struct Lay {
    pub ahead: int,
    pub text: Seq<char>,
    pub strip: int,
}

/// Whether the block `node` lies so. A named block runs from its first item to its last, and is
/// dedented by what its lines have in common; a raw block runs between its tokens, without the
/// indentation of its first line and without its trailing comment line, and is dedented by the
/// indentation of its first literal.
pub open spec fn lies(src: Seq<char>, node: Node, lay: Lay) -> bool {
    ||| {
        &&& is_named_block(src, node)
        &&& cut_out(src, named_from(node), named_to(src, node), lay.ahead, lay.text)
        &&& is_dedent(bytes_of(src), named_from(node), named_to(src, node), lay.strip)
    }
    ||| {
        &&& is_raw_text(src, node)
        &&& first_indent(node.kind->StrRawTempl_children@, lay.strip)
        &&& exists|whole: Seq<char>, at: int| #[trigger]
            cut_out(src, at, raw_to(node), lay.ahead, whole) && raw_begins(
                bytes_of(src),
                raw_from(node),
                raw_to(node),
                lay.strip,
                at,
            ) && is_content(whole, lay.text)
    }
}

/// Whether `text` is `whole` without its trailing comment line, if it has one.
pub open spec fn is_content(whole: Seq<char>, text: Seq<char>) -> bool {
    ||| (forall|c: CommentLine| !#[trigger] ends_in_comment(whole, ";; sm:"@, c)) && text == whole
    ||| exists|c: CommentLine| #[trigger]
        ends_in_comment(whole, ";; sm:"@, c) && text == whole.take(
            if c.line > 0 {
                c.line - 1
            } else {
                0
            },
        )
}

/// Whether the block `node` carries the encoded source map `p`: in the comment on the line
/// behind a named block, at the column of its first item, or on the trailing comment line of a
/// raw block.
pub open spec fn carries_map(src: Seq<char>, node: Node, p: Seq<char>) -> bool {
    ||| {
        &&& is_named_block(src, node)
        &&& exists|c: int| #[trigger]
            at_column(bytes_of(src), named_from(node), c) && carries(
                bytes_of(src),
                named_to(src, node),
                c,
                bytes_of("# sm:"@),
                bytes_of(p),
            )
    }
    ||| {
        &&& is_raw_text(src, node)
        &&& exists|n: int, whole: Seq<char>, at: int, strip: int|
            #![trigger cut_out(src, at, raw_to(node), n, whole), first_indent(node.kind->StrRawTempl_children@, strip)]
            cut_out(src, at, raw_to(node), n, whole) && first_indent(
                node.kind->StrRawTempl_children@,
                strip,
            ) && raw_begins(bytes_of(src), raw_from(node), raw_to(node), strip, at) && (exists|
                c: CommentLine,
            | #[trigger]
                ends_in_comment(whole, ";; sm:"@, c) && p == whole.subrange(c.from, c.to))
    }
}

/// Whether byte `off` of the dedented block `node` stands at `p` in the document.
pub open spec fn maps_to(src: Seq<char>, node: Node, off: int, p: (int, int)) -> bool {
    exists|lay: Lay, kept: Seq<int>, n: int|
        #![trigger lies(src, node, lay), byte_of(lay.text, kept, off, n)]
        lies(src, node, lay) && leaves(lay.text, lay.strip, kept) && byte_of(
            lay.text,
            kept,
            off,
            n,
        ) && is_place(src, lay.ahead + n, p)
}

/// Whether the dedented block `node` has `len` bytes.
pub open spec fn has_bytes(src: Seq<char>, node: Node, len: int) -> bool {
    exists|lay: Lay, kept: Seq<int>|
        #![trigger lies(src, node, lay), leaves(lay.text, lay.strip, kept)]
        lies(src, node, lay) && leaves(lay.text, lay.strip, kept) && len == kept_bytes(
            lay.text,
            kept,
            kept.len() as int,
        )
}

/// A node is a block of a pair exactly if it is a named block with content or a raw block with
/// content.
pub proof fn blocks_are_named_or_raw(src: Seq<char>, node: Node)
    ensures
        block_of(src, node) is Some <==> is_named_block(src, node) || is_raw_text(src, node),
{
}

/// Whether both ends of a block are in the source, in order, and between characters; for a raw
/// block the start is where its content starts.
pub open spec fn between_characters(src: Seq<char>, node: Node) -> bool {
    &&& is_named_block(src, node) ==> named_from(node) <= named_to(src, node) && is_char_boundary(
        bytes_of(src),
        named_from(node),
    ) && is_char_boundary(bytes_of(src), named_to(src, node))
    &&& is_raw_text(src, node) ==> exists|at: int, strip: int|
        #![trigger first_indent(node.kind->StrRawTempl_children@, strip), is_char_boundary(bytes_of(src), at)]
        first_indent(node.kind->StrRawTempl_children@, strip) && raw_begins(
            bytes_of(src),
            raw_from(node),
            raw_to(node),
            strip,
            at,
        ) && is_char_boundary(bytes_of(src), at) && is_char_boundary(bytes_of(src), raw_to(node))
}

/// A block fits the source exactly if it is cut out between characters.
pub proof fn blocks_fit_between_characters(src: Seq<char>, node: Node)
    ensures
        block_fits(src, node) <==> between_characters(src, node),
{
    if is_raw_text(src, node) {
        let items = node.kind->StrRawTempl_children@;
        let s = bytes_of(src);
        lemma_first_indent(items);
        lemma_raw_begins(s, raw_from(node), raw_to(node), literal_indent(items) as int);
        let at0 = raw_start(s, raw_from(node), raw_to(node), literal_indent(items) as int);
        if block_fits(src, node) {
            assert(first_indent(items, literal_indent(items) as int));
            assert(is_char_boundary(s, at0));
        }
        assert forall|at: int, strip: int|
            #![trigger first_indent(items, strip), is_char_boundary(s, at)]
            first_indent(items, strip) && raw_begins(
                s,
                raw_from(node),
                raw_to(node),
                strip,
                at,
            ) implies at == at0 by {
            lemma_first_indent_once(items, strip);
            lemma_raw_begins_once(s, raw_from(node), raw_to(node), strip, at, at0);
        }
    }
}

proof fn lemma_first_indent(items: Seq<Node>)
    ensures
        first_indent(items, literal_indent(items) as int),
    decreases items.len(),
{
    if items.len() > 0 && !(items[0].kind is LitStr) {
        let rest = items.skip(1);
        lemma_first_indent(rest);
        let n = literal_indent(items) as int;
        if exists|k: int|
            0 <= k < rest.len() && (#[trigger] rest[k]).kind is LitStr && rest[k].kind->indent == n
                && (forall|j: int| 0 <= j < k ==> !((#[trigger] rest[j]).kind is LitStr)) {
            let k = choose|k: int|
                0 <= k < rest.len() && (#[trigger] rest[k]).kind is LitStr && rest[k].kind->indent
                    == n && (forall|j: int| 0 <= j < k ==> !((#[trigger] rest[j]).kind is LitStr));
            assert(items[k + 1] == rest[k]);
            assert forall|j: int| 0 <= j < k + 1 implies !((#[trigger] items[j]).kind is LitStr) by {
                if j > 0 {
                    assert(rest[j - 1] == items[j]);
                }
            }
        } else {
            assert forall|k: int| 0 <= k < items.len() implies !((
            #[trigger] items[k]).kind is LitStr) by {
                if k > 0 {
                    assert(rest[k - 1] == items[k]);
                }
            }
        }
    } else if items.len() > 0 {
        assert(items[0].kind is LitStr);
    }
}

proof fn lemma_first_indent_once(items: Seq<Node>, n: int)
    requires
        first_indent(items, n),
    ensures
        n == literal_indent(items),
    decreases items.len(),
{
    if items.len() > 0 && !(items[0].kind is LitStr) {
        let rest = items.skip(1);
        if exists|k: int|
            0 <= k < items.len() && (#[trigger] items[k]).kind is LitStr && items[k].kind->indent
                == n && (forall|j: int| 0 <= j < k ==> !((#[trigger] items[j]).kind is LitStr)) {
            let k = choose|k: int|
                0 <= k < items.len() && (#[trigger] items[k]).kind is LitStr
                    && items[k].kind->indent == n && (forall|j: int|
                    0 <= j < k ==> !((#[trigger] items[j]).kind is LitStr));
            assert(rest[k - 1] == items[k]);
            assert forall|j: int| 0 <= j < k - 1 implies !((#[trigger] rest[j]).kind is LitStr) by {
                assert(rest[j] == items[j + 1]);
            }
        } else {
            assert forall|k: int| 0 <= k < rest.len() implies !((
            #[trigger] rest[k]).kind is LitStr) by {
                assert(rest[k] == items[k + 1]);
            }
        }
        lemma_first_indent_once(rest, n);
    }
}

proof fn lemma_spaces(s: Seq<u8>, from: int, to: int)
    requires
        from <= to,
    ensures
        from <= spaces_end(s, from, to) <= to,
        forall|k: int| from <= k < spaces_end(s, from, to) ==> #[trigger] s[k] == 32,
        spaces_end(s, from, to) < to ==> s[spaces_end(s, from, to)] != 32,
    decreases to - from,
{
    if from < to && s[from] == 32 {
        lemma_spaces(s, from + 1, to);
    }
}

proof fn lemma_raw_begins(s: Seq<u8>, from: int, to: int, strip: int)
    requires
        0 <= from < to <= s.len(),
        0 <= strip,
    ensures
        raw_begins(s, from, to, strip, raw_start(s, from, to, strip)),
{
    let line = raw_line_start(s, from);
    lemma_spaces(s, line, to);
    let e = spaces_end(s, line, to);
    if forall|k: int| line <= k < to ==> #[trigger] s[k] == 32 {
        if e < to {
            assert(s[e] == 32);
        }
    } else {
        if e == to {
            assert(forall|k: int| line <= k < to ==> #[trigger] s[k] == 32);
        }
    }
}

proof fn lemma_raw_begins_once(s: Seq<u8>, from: int, to: int, strip: int, a: int, b: int)
    requires
        raw_begins(s, from, to, strip, a),
        raw_begins(s, from, to, strip, b),
    ensures
        a == b,
{
    if a < b {
        assert(s[a] == 32);
    }
    if b < a {
        assert(s[b] == 32);
    }
}

/// The text in front of a block and the block's text, as characters of the source.
proof fn lemma_cut(src: Seq<char>, from: int, to: int)
    requires
        sliceable(src, from, to),
    ensures
        cut_out(
            src,
            from,
            to,
            text_between(src, 0, from).len() as int,
            text_between(src, from, to),
        ),
        src.take(text_between(src, 0, from).len() as int) == text_between(src, 0, from),
{
    lemma_text_pieces(src, from, to);
    let a = text_between(src, 0, from);
    let t = text_between(src, from, to);
    let both = src.subrange(0, (a + t).len() as int);
    assert(both == a + t);
    assert(src.take(a.len() as int) =~= a) by {
        assert forall|k: int| 0 <= k < a.len() implies src[k] == a[k] by {
            assert(both[k] == (a + t)[k]);
        }
    }
    assert(src.subrange(a.len() as int, (a.len() + t.len()) as int) =~= t) by {
        assert forall|k: int| 0 <= k < t.len() implies src[a.len() + k] == t[k] by {
            assert(both[a.len() + k] == (a + t)[a.len() + k]);
        }
    }
}

proof fn lemma_lies(src: Seq<char>, node: Node) -> (lay: Lay)
    requires
        block_of(src, node) is Some,
        block_fits(src, node),
    ensures
        lies(src, node, lay),
        lay.text == block_text(src, node),
        lay.strip == block_strip(src, node),
        0 <= lay.ahead,
        lay.ahead + lay.text.len() <= src.len(),
        lay.text == src.subrange(lay.ahead, lay.ahead + lay.text.len()),
        src.take(lay.ahead) == text_between(src, 0, block_start(src, node)),
{
    let s = bytes_of(src);
    let start = block_start(src, node);
    let ahead = text_between(src, 0, start).len() as int;
    let lay = Lay { ahead, text: block_text(src, node), strip: block_strip(src, node) as int };
    if node.kind is Block {
        lemma_cut(src, start, named_to(src, node));
        let n = lemma_dedent(s, named_from(node), named_to(src, node));
        assert(lies(src, node, lay));
    } else {
        let items = node.kind->StrRawTempl_children@;
        let to = raw_to(node);
        lemma_cut(src, start, to);
        lemma_first_indent(items);
        lemma_raw_begins(s, raw_from(node), to, literal_indent(items) as int);
        let whole = text_between(src, start, to);
        trailing_comment_is_split_off(whole, ";; sm:"@);
        if split_sm_line(whole, ";; sm:"@).1 is Some {
            let c = choose|c: CommentLine| #[trigger] ends_in_comment(whole, ";; sm:"@, c);
            assert(ends_in_comment(whole, ";; sm:"@, c));
            let n = if c.line > 0 {
                c.line - 1
            } else {
                0
            };
            assert(lay.text == whole.take(n));
            assert(whole.take(n) =~= src.subrange(ahead, ahead + n));
        }
        assert(is_content(whole, lay.text));
        assert(cut_out(src, start, raw_to(node), lay.ahead, whole));
        assert(raw_begins(s, raw_from(node), raw_to(node), lay.strip, start));
        assert(first_indent(items, lay.strip));
        assert(is_raw_text(src, node));
        assert(lies(src, node, lay));
    }
    lay
}

/// A block's map gives places in the document: byte `off` of the dedented block is sent to the
/// place of its character in the source, and every offset behind them to the end of the block.
/// There are as many bytes as the dedented block has.
pub proof fn block_bytes_stand_in_the_document(src: Seq<char>, node: Node, off: int)
    requires
        block_of(src, node) is Some,
        block_fits(src, node),
        0 <= off,
    ensures
        maps_to(src, node, off, place_at(block_of(src, node)->0.map, off)),
        has_bytes(src, node, block_of(src, node)->0.map.cells.len() as int),
{
    let lay = lemma_lies(src, node);
    let start = cursor((0, 0), src.take(lay.ahead));
    let map = block_of(src, node)->0.map;
    let kept = lemma_map_cursor(start, lay.text, lay.strip as nat);
    assert(byte_of_some(lay.text, kept, off));
    let n = choose|n: int| #[trigger] byte_of(lay.text, kept, off, n);
    assert(place_at(map, off) == cursor(start, lay.text.take(n)));
    lemma_cursor_concat((0, 0), src.take(lay.ahead), lay.text.take(n));
    assert(src.take(lay.ahead) + lay.text.take(n) =~= src.take(lay.ahead + n));
    let breaks = lemma_cursor((0, 0), src, lay.ahead + n);
    assert(is_place(src, lay.ahead + n, place_at(map, off)));
    assert(leaves(lay.text, lay.strip, kept));
}

proof fn lemma_decoded(b: Seq<u8>, p: Seq<char>)
    requires
        valid_utf8(b),
    ensures
        decode_utf8(b) == p <==> b == bytes_of(p),
{
    broadcast use group_utf8_lib;

    assert(encode_utf8(decode_utf8(b)) == b);
    assert(decode_utf8(encode_utf8(p)) == p);
}

/// The encoded source map of a block is the one that its comment carries.
pub proof fn payload_is_what_the_comment_carries(src: Seq<char>, node: Node, p: Seq<char>)
    requires
        block_of(src, node) is Some,
        block_fits(src, node),
    ensures
        block_of(src, node)->0.sm_payload == Some(p) <==> carries_map(src, node, p),
{
    let s = bytes_of(src);
    let got = block_of(src, node)->0.sm_payload;
    if node.kind is Block {
        let from = named_from(node);
        let to = named_to(src, node);
        let c0 = from - line_start(s, from);
        lemma_column(s, from);
        let prefix = bytes_of("# sm:"@);
        comment_is_read_as_text(src, to, c0, "# sm:"@, p);
        assert forall|c: int| #[trigger] at_column(s, from, c) implies c == c0 by {
            lemma_column_once(s, from, c, c0);
        }
        assert(got == comment_text(src, to, c0, "# sm:"@));
        if got == Some(p) {
            assert(carries(s, to, c0, prefix, bytes_of(p)));
            assert(at_column(s, from, c0));
        }
    } else {
        let items = node.kind->StrRawTempl_children@;
        let to = raw_to(node);
        let start = block_start(src, node);
        let strip0 = literal_indent(items) as int;
        lemma_cut(src, start, to);
        lemma_first_indent(items);
        lemma_raw_begins(s, raw_from(node), to, strip0);
        let whole0 = text_between(src, start, to);
        let n0 = text_between(src, 0, start).len() as int;
        trailing_comment_is_split_off(whole0, ";; sm:"@);
        if got == Some(p) {
            let c = choose|c: CommentLine| #[trigger] ends_in_comment(whole0, ";; sm:"@, c);
            assert(ends_in_comment(whole0, ";; sm:"@, c) && p == whole0.subrange(c.from, c.to));
            assert(cut_out(src, start, to, n0, whole0) && first_indent(items, strip0));
        }
        if carries_map(src, node, p) {
            let (n, whole, at, strip) = choose|n: int, whole: Seq<char>, at: int, strip: int|
                #![trigger cut_out(src, at, to, n, whole), first_indent(items, strip)]
                cut_out(src, at, to, n, whole) && first_indent(items, strip) && raw_begins(
                    s,
                    raw_from(node),
                    to,
                    strip,
                    at,
                ) && (exists|c: CommentLine| #[trigger]
                    ends_in_comment(whole, ";; sm:"@, c) && p == whole.subrange(c.from, c.to));
            lemma_first_indent_once(items, strip);
            lemma_raw_begins_once(s, raw_from(node), to, strip, at, start);
            lemma_cut_once(src, start, to, n, whole, n0, whole0);
            let c = choose|c: CommentLine| #[trigger]
                ends_in_comment(whole, ";; sm:"@, c) && p == whole.subrange(c.from, c.to);
            assert(ends_in_comment(whole0, ";; sm:"@, c));
        }
    }
}

/// The comment that is read behind byte `from` of a source is the one that carries it.
pub proof fn comment_is_read_as_text(
    src: Seq<char>,
    from: int,
    indent: int,
    prefix: Seq<char>,
    p: Seq<char>,
)
    requires
        0 <= from,
        0 <= indent,
    ensures
        comment_text(src, from, indent, prefix) == Some(p) <==> carries(
            bytes_of(src),
            from,
            indent,
            bytes_of(prefix),
            bytes_of(p),
        ),
{
    comment_behind_a_block(bytes_of(src), from, indent, bytes_of(prefix), bytes_of(p));
    if let Some(b) = comment_after(bytes_of(src), from, indent, bytes_of(prefix)) {
        lemma_comment_valid(src, from, indent, prefix);
        lemma_decoded(b, p);
    }
}

proof fn lemma_column_once(s: Seq<u8>, at: int, a: int, b: int)
    requires
        at_column(s, at, a),
        at_column(s, at, b),
    ensures
        a == b,
{
    if a < b {
        assert(s[at - a - 1] != 10);
    }
    if b < a {
        assert(s[at - b - 1] != 10);
    }
}

proof fn lemma_take_longer(t: Seq<char>, n: int, m: int)
    requires
        0 <= n < m <= t.len(),
    ensures
        bytes_of(t.take(n)).len() < bytes_of(t.take(m)).len(),
    decreases m,
{
    assert(t.take(m).drop_last() =~= t.take(m - 1));
    let c = t[m - 1];
    assert(t.take(m) =~= t.take(m - 1) + seq![c]);
    lemma_bytes_concat(t.take(m - 1), seq![c]);
    assert(seq![c].drop_first() =~= Seq::<char>::empty());
    assert(bytes_of(seq![c]) =~= encode_scalar(c as u32)) by {
        reveal_with_fuel(encode_utf8, 2);
    }
    if n < m - 1 {
        lemma_take_longer(t, n, m - 1);
    }
}

proof fn lemma_cut_once(
    src: Seq<char>,
    from: int,
    to: int,
    n: int,
    a: Seq<char>,
    m: int,
    b: Seq<char>,
)
    requires
        cut_out(src, from, to, n, a),
        cut_out(src, from, to, m, b),
    ensures
        n == m,
        a == b,
{
    if n < m {
        lemma_take_longer(src, n, m);
    }
    if m < n {
        lemma_take_longer(src, m, n);
    }
    let rest = src.skip(n);
    assert(a =~= rest.take(a.len() as int));
    assert(b =~= rest.take(b.len() as int));
    if a.len() < b.len() {
        lemma_take_longer(rest, a.len() as int, b.len() as int);
    }
    if b.len() < a.len() {
        lemma_take_longer(rest, b.len() as int, a.len() as int);
    }
}

/// A block knows where its content ends: the byte behind its text, the line of that byte, and
/// the column at which its lines start, that of the first item of a named block and the
/// indentation of the first literal of a raw one.
pub proof fn block_knows_its_end(src: Seq<char>, node: Node) -> (lay: Lay)
    requires
        block_of(src, node) is Some,
        block_fits(src, node),
    ensures
        lies(src, node, lay),
        ({
            let b = block_of(src, node)->0;
            &&& b.content_end_byte == bytes_of(src.take(lay.ahead)).len() + bytes_of(lay.text).len()
            &&& lines_before(bytes_of(src), b.content_end_byte, b.last_content_line)
            &&& is_named_block(src, node) ==> at_column(bytes_of(src), named_from(node), b.indent)
            &&& !is_named_block(src, node) ==> b.indent == lay.strip
        }),
{
    let lay = lemma_lies(src, node);
    let s = bytes_of(src);
    let b = block_of(src, node)->0;
    let start = block_start(src, node);
    if node.kind is Block {
        lemma_text_pieces(src, start, named_to(src, node));
        lemma_column(s, named_from(node));
    } else {
        lemma_text_pieces(src, start, raw_to(node));
        let whole = text_between(src, start, raw_to(node));
        lemma_split_prefix(whole, ";; sm:"@);
    }
    let ends = lemma_lines_before(s, b.content_end_byte);
    lay
}

/// What is known of the content of a named block before it is cut out: where it starts and
/// ends, its dedent, and the line and byte column of its first item.
pub proof fn block_content_is_located(s: Seq<u8>, first: u32, last: u32)
    ensures
        block_content(s, first, last) is Some <==> first < s.len(),
        block_content(s, first, last) matches Some(c) ==> {
            &&& c.start == first
            &&& c.end == (if last <= s.len() {
                last as int
            } else {
                s.len() as int
            })
            &&& is_dedent(s, first as int, c.end as int, c.strip as int)
            &&& at_column(s, first as int, c.first_col as int)
            &&& s.len() <= u32::MAX ==> lines_before(
                s,
                first - c.first_col,
                c.first_line as int,
            )
        },
{
    if first < s.len() {
        let c = block_content(s, first, last)->0;
        lemma_column(s, first as int);
        let n = lemma_dedent(s, first as int, c.end as int);
        lemma_dedent_bound(s, first as int, c.end as int, n);
        let line = line_start(s, first as int);
        let ends = lemma_lines_before(s, line);
        lemma_few_lines(s, line);
        assert(lines_before(s, line, ends.len() as int));
    }
}

proof fn lemma_few_lines(s: Seq<u8>, to: int)
    requires
        0 <= to <= s.len(),
    ensures
        newlines(s.take(to)) <= to,
    decreases to,
{
    if to > 0 {
        assert(s.take(to).drop_last() =~= s.take(to - 1));
        lemma_few_lines(s, to - 1);
    } else {
        assert(s.take(0) =~= Seq::<u8>::empty());
    }
}

proof fn lemma_dedent_bound(s: Seq<u8>, first: int, to: int, n: int)
    requires
        is_dedent(s, first, to, n),
        0 <= to <= u32::MAX,
        0 <= first <= u32::MAX,
    ensures
        0 <= n <= u32::MAX,
{
}

} // verus!
