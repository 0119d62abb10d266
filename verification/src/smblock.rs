//! The blocks of source-map pairs: their place in the document and the payload they carry.
use vstd::prelude::*;
use vstd::string::*;
use vstd::utf8::*;
use crate::blockmap::{
    cursor, dedented, lemma_cursor_bound, lemma_cursor_concat, lemma_map_fits, map_fits,
    map_gives_document_places, map_of,
    place_at, place_behind, stripped, BlockMap, MapModel,
};
use crate::bytes::{
    bytes_of, count_newlines, lemma_bytes_concat, lemma_text_pieces, newlines, slice, sliceable,
    text_between, NEWLINE,
};
use crate::candidates::is_raw_block;
use crate::smtext::{
    block_content, comment_text, compute_fink_block_content, opt_text, scan_sm_comment_after,
    split_sm_line, split_trailing_sm_line,
};
use crate::syntax::{Node, NodeKind};
use crate::text::{same_text, utf8_width};

verus! {

/// A block of a source-map pair.
#[derive(Debug)]
pub struct SmBlock {
    /// The byte offset in the source where the content ends.
    pub content_end_byte: u32,
    /// The indentation of the content lines.
    pub indent: u32,
    /// Where the bytes of the dedented content stand in the document.
    pub map: BlockMap,
    /// The line on which the content ends.
    pub last_content_line: u32,
    /// The encoded source map that the block's comment carries, if it has such a comment.
    pub sm_payload: Option<String>,
}

/// A block of a source-map pair, over the integers and character sequences.
pub struct SmModel {
    pub content_end_byte: int,
    pub indent: int,
    pub map: MapModel,
    pub last_content_line: int,
    pub sm_payload: Option<Seq<char>>,
}

impl View for SmBlock {
    type V = SmModel;

    open spec fn view(&self) -> SmModel {
        SmModel {
            content_end_byte: self.content_end_byte as int,
            indent: self.indent as int,
            map: self.map@,
            last_content_line: self.last_content_line as int,
            sm_payload: opt_text(self.sm_payload),
        }
    }
}

/// The block behind an optional block.
pub open spec fn opt_block(b: Option<SmBlock>) -> Option<SmModel> {
    match b {
        Some(b) => Some(b@),
        None => None,
    }
}

/// A named block with items `body`: its content runs from the first item to the last one,
/// and the comment on the next line, at the column of the first item, may carry a source map.
pub open spec fn named_block(src: Seq<char>, body: Seq<Node>) -> Option<SmModel> {
    let s = bytes_of(src);
    if body.len() == 0 {
        None
    } else {
        match block_content(s, body[0].loc.start.idx, body.last().loc.end.idx) {
            None => None,
            Some(c) => Some(
                SmModel {
                    content_end_byte: c.end as int,
                    indent: c.first_col as int,
                    map: map_of(
                        text_between(src, c.start as int, c.end as int),
                        cursor((0, 0), text_between(src, 0, c.start as int)),
                        c.strip as nat,
                    ),
                    last_content_line: newlines(s.take(c.end as int)) as int,
                    sm_payload: comment_text(src, c.end as int, c.first_col as int, "# sm:"@),
                },
            ),
        }
    }
}

/// Whether the text of a named block can be cut out of the source.
pub open spec fn named_block_fits(src: Seq<char>, body: Seq<Node>) -> bool {
    body.len() > 0 ==> match block_content(
        bytes_of(src),
        body[0].loc.start.idx,
        body.last().loc.end.idx,
    ) {
        None => true,
        Some(c) => sliceable(src, c.start as int, c.end as int),
    }
}

/// The indentation of the first string literal among `children`; 0 if there is none.
pub open spec fn literal_indent(children: Seq<Node>) -> u32
    decreases children.len(),
{
    if children.len() == 0 {
        0
    } else {
        match children[0].kind {
            NodeKind::LitStr { content, indent } => indent,
            _ => literal_indent(children.skip(1)),
        }
    }
}

/// Where the spaces at the front of `s[from..to]` end.
pub open spec fn spaces_end(s: Seq<u8>, from: int, to: int) -> int
    decreases to - from,
{
    if from < to && s[from] == 32 {
        spaces_end(s, from + 1, to)
    } else {
        from
    }
}

/// Where the first line of a raw block starts, whose opening token ends at `from`: behind
/// the line end that may stand there.
pub open spec fn raw_line_start(s: Seq<u8>, from: int) -> int {
    if s[from] == NEWLINE {
        from + 1
    } else {
        from
    }
}

/// Where the content of a raw block between `from` and `to` starts: behind at most `strip`
/// spaces of its first line. A block of nothing but spaces keeps them.
pub open spec fn raw_start(s: Seq<u8>, from: int, to: int, strip: int) -> int {
    let line = raw_line_start(s, from);
    let end = spaces_end(s, line, to);
    let spaces = if end < to {
        end - line
    } else {
        0
    };
    line + (if strip < spaces {
        strip
    } else {
        spaces
    })
}

/// The text of a raw block up to its comment line, and what that comment carries.
pub open spec fn raw_split(src: Seq<char>, from: int, to: int, strip: int) -> (
    Seq<char>,
    Option<Seq<char>>,
) {
    split_sm_line(
        text_between(src, raw_start(bytes_of(src), from, to, strip), to),
        ";; sm:"@,
    )
}

/// A raw block between the byte offsets `from` and `to`, dedented by `strip`. Its last line
/// may be a comment that carries a source map; that line is not part of the content.
pub open spec fn raw_block(src: Seq<char>, from: u32, to: u32, strip: u32) -> Option<SmModel> {
    let s = bytes_of(src);
    if to <= from || to > s.len() {
        None
    } else {
        let start = raw_start(s, from as int, to as int, strip as int);
        let split = raw_split(src, from as int, to as int, strip as int);
        let end = start + bytes_of(split.0).len();
        Some(
            SmModel {
                content_end_byte: end,
                indent: strip as int,
                map: map_of(
                    split.0,
                    cursor((0, 0), text_between(src, 0, start)),
                    strip as nat,
                ),
                last_content_line: newlines(s.take(end)) as int,
                sm_payload: split.1,
            },
        )
    }
}

/// Whether the text of a raw block can be cut out of the source.
pub open spec fn raw_block_fits(src: Seq<char>, from: u32, to: u32, strip: u32) -> bool {
    let s = bytes_of(src);
    from < to <= s.len() ==> sliceable(
        src,
        raw_start(s, from as int, to as int, strip as int),
        to as int,
    )
}

/// The block that `node` is.
pub open spec fn block_of(src: Seq<char>, node: Node) -> Option<SmModel> {
    match node.kind {
        NodeKind::Block { name, params, body } => named_block(src, body@),
        NodeKind::StrRawTempl { open, close, children } => if is_raw_block(node) {
            raw_block(src, open.loc.end.idx, close.loc.start.idx, literal_indent(children@))
        } else {
            None
        },
        _ => None,
    }
}

/// Whether the offsets of `node` fit the source: its text can be cut out.
pub open spec fn block_fits(src: Seq<char>, node: Node) -> bool {
    match node.kind {
        NodeKind::Block { name, params, body } => named_block_fits(src, body@),
        NodeKind::StrRawTempl { open, close, children } => is_raw_block(node) ==> raw_block_fits(
            src,
            open.loc.end.idx,
            close.loc.start.idx,
            literal_indent(children@),
        ),
        _ => true,
    }
}

/// A block that is cut out of the first 4 GiB of a source has a map that can be written down,
/// and so has the place where it starts.
proof fn lemma_block_map_fits(src: Seq<char>, start: int, end: int, text: Seq<char>, strip: nat)
    requires
        sliceable(src, start, end),
        end <= u32::MAX,
        bytes_of(text).len() <= end - start,
    ensures
        is_char_boundary(bytes_of(src), 0),
        bytes_of(text_between(src, 0, start)).len() <= u32::MAX,
        map_fits(text, cursor((0, 0), text_between(src, 0, start)), strip),
{
    broadcast use group_utf8_lib;

    is_char_boundary_start_end_of_seq(bytes_of(src));
    lemma_text_pieces(src, start, end);
    let ahead = text_between(src, 0, start);
    lemma_cursor_bound((0, 0), ahead);
    lemma_map_fits(text, cursor((0, 0), ahead), strip);
}

fn try_named_block(src: &str, body: &Vec<Node>) -> (block: Option<Option<SmBlock>>)
    ensures
        block is Some <==> named_block_fits(src@, body@),
        block matches Some(b) ==> opt_block(b) == named_block(src@, body@),
{
    if body.len() == 0 {
        return Some(None);
    }
    let first_byte = body[0].loc.start.idx;
    let last_byte = body[body.len() - 1].loc.end.idx;
    let content = match compute_fink_block_content(src, first_byte, last_byte) {
        Some(c) => c,
        None => return Some(None),
    };
    let (start, end) = (content.start as usize, content.end as usize);
    if start > end || !src.is_char_boundary(start) || !src.is_char_boundary(end) {
        return None;
    }
    let s = src.as_bytes();
    let block_text = slice(src, start, end);
    proof {
        lemma_block_map_fits(src@, start as int, end as int, block_text@, content.strip as nat);
    }
    let (line, col) = place_behind(slice(src, 0, start));
    let map = BlockMap::build(block_text, line, col, content.strip);
    let last_content_line = count_newlines(s, end);
    let sm_payload = scan_sm_comment_after(src, content.end, content.first_col, "# sm:");
    Some(
        Some(
            SmBlock {
                content_end_byte: content.end,
                indent: content.first_col,
                map,
                last_content_line,
                sm_payload,
            },
        ),
    )
}

fn find_literal_indent(children: &Vec<Node>) -> (indent: u32)
    ensures
        indent == literal_indent(children@),
{
    assert(children@.skip(0) =~= children@);
    for i in 0..children.len()
        invariant
            literal_indent(children@.skip(i as int)) == literal_indent(children@),
    {
        assert(children@.skip(i as int).skip(1) =~= children@.skip(i + 1));
        match &children[i].kind {
            NodeKind::LitStr { content: _, indent } => {
                return *indent;
            },
            _ => {},
        }
    }
    0
}

fn try_raw_block(src: &str, from: u32, to: u32, strip: u32) -> (block: Option<Option<SmBlock>>)
    ensures
        block is Some <==> raw_block_fits(src@, from, to, strip),
        block matches Some(b) ==> opt_block(b) == raw_block(src@, from, to, strip),
{
    let s = src.as_bytes();
    if to <= from || to as usize > s.len() {
        return Some(None);
    }
    let line = if s[from as usize] == NEWLINE {
        from as usize + 1
    } else {
        from as usize
    };
    let mut at: usize = line;
    while at < to as usize && s[at] == 32
        invariant
            line <= at <= to <= s.len(),
            spaces_end(s@, at as int, to as int) == spaces_end(s@, line as int, to as int),
        decreases to - at,
    {
        at = at + 1;
    }
    let spaces: usize = if at < to as usize {
        at - line
    } else {
        0
    };
    let start = line + (if (strip as usize) < spaces {
        strip as usize
    } else {
        spaces
    });
    let end = to as usize;
    if !src.is_char_boundary(start) || !src.is_char_boundary(end) {
        return None;
    }
    let block_text = slice(src, start, end);
    let (text_for_map, sm_payload) = split_trailing_sm_line(block_text, ";; sm:");
    proof {
        lemma_split_prefix(block_text@, ";; sm:"@);
        lemma_block_map_fits(src@, start as int, end as int, text_for_map@, strip as nat);
    }
    let (first_line, first_col) = place_behind(slice(src, 0, start));
    let map = BlockMap::build(text_for_map, first_line, first_col, strip);
    let content_end = start + text_for_map.len();
    let last_content_line = count_newlines(s, content_end);
    Some(
        Some(
            SmBlock {
                content_end_byte: content_end as u32,
                indent: strip,
                map,
                last_content_line,
                sm_payload,
            },
        ),
    )
}

/// What is left of a text in front of its comment line is the front of that text.
pub(crate) proof fn lemma_split_prefix(t: Seq<char>, prefix: Seq<char>)
    ensures
        split_sm_line(t, prefix).0.is_prefix_of(t),
        bytes_of(split_sm_line(t, prefix).0).len() <= bytes_of(t).len(),
{
    let head = split_sm_line(t, prefix).0;
    let end = crate::smtext::text_end(t);
    let start = crate::smtext::line_begin(t, end);
    if split_sm_line(t, prefix).1 is Some {
        crate::smtext::lemma_text_end_bound(t);
        crate::smtext::lemma_line_begin_bound(t, end);
        let n = head.len() as int;
        assert(head + t.skip(n) =~= t);
        assert(t.subrange(0, n) =~= head);
        lemma_bytes_concat(head, t.skip(n));
    } else {
        assert(t.subrange(0, t.len() as int) =~= t);
    }
}

/// Builds the block that `node` is, or reports that its offsets do not fit the source.
pub fn try_build_sm_block(src: &str, node: &Node) -> (block: Option<Option<SmBlock>>)
    ensures
        block is Some <==> block_fits(src@, *node),
        block matches Some(b) ==> opt_block(b) == block_of(src@, *node),
{
    match &node.kind {
        NodeKind::Block { name: _, params: _, body } => try_named_block(src, body),
        NodeKind::StrRawTempl { open, close, children } => {
            if same_text(open.src.as_str(), "\":") {
                let strip = find_literal_indent(children);
                try_raw_block(src, open.loc.end.idx, close.loc.start.idx, strip)
            } else {
                Some(None)
            }
        },
        _ => Some(None),
    }
}

/// Builds the block that `node` is.
pub fn build_sm_block(src: &str, node: &Node) -> (block: Option<SmBlock>)
    requires
        block_fits(src@, *node),
    ensures
        opt_block(block) == block_of(src@, *node),
{
    try_build_sm_block(src, node).unwrap()
}

/// The byte offset in the source where the content of the block `node` starts.
pub open spec fn block_start(src: Seq<char>, node: Node) -> int {
    let s = bytes_of(src);
    match node.kind {
        NodeKind::Block { name, params, body } => block_content(
            s,
            body@[0].loc.start.idx,
            body@.last().loc.end.idx,
        )->0.start as int,
        NodeKind::StrRawTempl { open, close, children } => raw_start(
            s,
            open.loc.end.idx as int,
            close.loc.start.idx as int,
            literal_indent(children@) as int,
        ),
        _ => 0,
    }
}

/// The text of the block `node`, before it is dedented.
pub open spec fn block_text(src: Seq<char>, node: Node) -> Seq<char> {
    match node.kind {
        NodeKind::Block { name, params, body } => {
            let c = block_content(
                bytes_of(src),
                body@[0].loc.start.idx,
                body@.last().loc.end.idx,
            )->0;
            text_between(src, c.start as int, c.end as int)
        },
        NodeKind::StrRawTempl { open, close, children } => raw_split(
            src,
            open.loc.end.idx as int,
            close.loc.start.idx as int,
            literal_indent(children@) as int,
        ).0,
        _ => Seq::empty(),
    }
}

/// How far the text of the block `node` is dedented.
pub open spec fn block_strip(src: Seq<char>, node: Node) -> nat {
    match node.kind {
        NodeKind::Block { name, params, body } => block_content(
            bytes_of(src),
            body@[0].loc.start.idx,
            body@.last().loc.end.idx,
        )->0.strip as nat,
        NodeKind::StrRawTempl { open, close, children } => literal_indent(children@) as nat,
        _ => 0,
    }
}

/// The text of a block stands in the source right behind the text in front of it, and the
/// block's map ends where that text ends.
pub proof fn block_text_stands_in_the_source(src: Seq<char>, node: Node)
    requires
        block_of(src, node) is Some,
        block_fits(src, node),
    ensures
        (text_between(src, 0, block_start(src, node)) + block_text(src, node)).is_prefix_of(src),
        block_of(src, node)->0.map.end == cursor(
            (0, 0),
            text_between(src, 0, block_start(src, node)) + block_text(src, node),
        ),
{
    let start = block_start(src, node);
    let ahead = text_between(src, 0, start);
    let text = block_text(src, node);
    match node.kind {
        NodeKind::Block { name, params, body } => {
            let c = block_content(
                bytes_of(src),
                body@[0].loc.start.idx,
                body@.last().loc.end.idx,
            )->0;
            lemma_text_pieces(src, start, c.end as int);
        },
        NodeKind::StrRawTempl { open, close, children } => {
            let to = close.loc.start.idx as int;
            let whole = text_between(src, start, to);
            lemma_text_pieces(src, start, to);
            lemma_split_prefix(whole, ";; sm:"@);
            let n = (ahead + text).len() as int;
            assert(ahead + text =~= (ahead + whole).subrange(0, n));
            assert(src.subrange(0, n) =~= src.subrange(0, (ahead + whole).len() as int).subrange(
                0,
                n,
            ));
        },
        _ => {},
    }
    lemma_cursor_concat((0, 0), ahead, text);
}

/// A block's map gives places in the document: every byte of every character that is not
/// stripped is sent to the place of that character in the source.
pub proof fn block_gives_document_places(src: Seq<char>, node: Node, n: int, b: int)
    requires
        block_of(src, node) is Some,
        block_fits(src, node),
        0 <= n < block_text(src, node).len(),
        !stripped(block_text(src, node), n, block_strip(src, node)),
        0 <= b < utf8_width(block_text(src, node)[n]),
    ensures
        place_at(
            block_of(src, node)->0.map,
            bytes_of(dedented(block_text(src, node).take(n), block_strip(src, node))).len() + b,
        ) == cursor(
            (0, 0),
            text_between(src, 0, block_start(src, node)) + block_text(src, node).take(n),
        ),
{
    map_gives_document_places(
        text_between(src, 0, block_start(src, node)),
        block_text(src, node),
        block_strip(src, node),
        n,
        b,
    );
}

} // verus!
