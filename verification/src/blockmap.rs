//! Where the bytes of a dedented block stand in the document.
use vstd::prelude::*;
use crate::bytes::{bytes_of, lemma_bytes_concat};
use crate::sort::before;
use crate::text::{chars_of, len_utf16, len_utf8, utf16_width, utf8_width};

verus! {

/// The place behind `c`, where `c` stands at `at`: a line and a column in UTF-16 units.
pub open spec fn advance(at: (int, int), c: char) -> (int, int) {
    if c == '\n' {
        (at.0 + 1, 0)
    } else {
        (at.0, at.1 + utf16_width(c))
    }
}

/// The place behind `chars`, where they start at `start`.
pub open spec fn cursor(start: (int, int), chars: Seq<char>) -> (int, int)
    decreases chars.len(),
{
    if chars.len() == 0 {
        start
    } else {
        advance(cursor(start, chars.drop_last()), chars.last())
    }
}

/// Spaces and tabs: what indentation is made of.
pub open spec fn is_blank(c: char) -> bool {
    c == ' ' || c == '\t'
}

/// How many more characters of indentation may be stripped behind `chars`: `strip` at the
/// start of every line but the first.
pub open spec fn margin(chars: Seq<char>, strip: nat) -> nat
    decreases chars.len(),
{
    if chars.len() == 0 {
        0
    } else if chars.last() == '\n' {
        strip
    } else if is_blank(chars.last()) && margin(chars.drop_last(), strip) > 0 {
        (margin(chars.drop_last(), strip) - 1) as nat
    } else {
        0
    }
}

/// Whether character `n` of `chars` is stripped indentation.
pub open spec fn stripped(chars: Seq<char>, n: int, strip: nat) -> bool {
    is_blank(chars[n]) && margin(chars.take(n), strip) > 0
}

/// `chars` without the stripped indentation.
pub open spec fn dedented(chars: Seq<char>, strip: nat) -> Seq<char>
    decreases chars.len(),
{
    if chars.len() == 0 {
        Seq::empty()
    } else if is_blank(chars.last()) && margin(chars.drop_last(), strip) > 0 {
        dedented(chars.drop_last(), strip)
    } else {
        dedented(chars.drop_last(), strip).push(chars.last())
    }
}

/// The places of the bytes of `c`, where `c` stands at `at`.
pub open spec fn char_cells(c: char, at: (int, int)) -> Seq<(int, int)> {
    Seq::new(utf8_width(c), |b: int| at)
}

/// The place in the document of each byte of the dedented text.
pub open spec fn cells(start: (int, int), strip: nat, chars: Seq<char>) -> Seq<(int, int)>
    decreases chars.len(),
{
    if chars.len() == 0 {
        Seq::empty()
    } else if is_blank(chars.last()) && margin(chars.drop_last(), strip) > 0 {
        cells(start, strip, chars.drop_last())
    } else {
        cells(start, strip, chars.drop_last()) + char_cells(
            chars.last(),
            cursor(start, chars.drop_last()),
        )
    }
}

/// A block map: the place of each byte of the dedented text, and the place behind them.
pub struct MapModel {
    pub cells: Seq<(int, int)>,
    pub end: (int, int),
}

/// The map of a block with text `chars` that starts at `start` and is dedented by `strip`.
pub open spec fn map_of(chars: Seq<char>, start: (int, int), strip: nat) -> MapModel {
    MapModel { cells: cells(start, strip, chars), end: cursor(start, chars) }
}

/// The place of dedented byte `off`; the end of the block at or past its end.
pub open spec fn place_at(map: MapModel, off: int) -> (int, int) {
    if 0 <= off < map.cells.len() {
        map.cells[off]
    } else {
        map.end
    }
}

proof fn lemma_bytes_push(t: Seq<char>, c: char)
    ensures
        bytes_of(t.push(c)).len() == bytes_of(t).len() + utf8_width(c),
{
    assert(t.push(c) =~= t + seq![c]);
    lemma_bytes_concat(t, seq![c]);
    assert(seq![c].drop_first() =~= Seq::<char>::empty());
    assert(bytes_of(seq![c]) =~= vstd::utf8::encode_scalar(c as u32)) by {
        reveal_with_fuel(vstd::utf8::encode_utf8, 2);
    }
}

/// Every line and every column takes at least a byte.
pub(crate) proof fn lemma_cursor_bound(start: (int, int), t: Seq<char>)
    requires
        start.0 >= 0,
        start.1 >= 0,
    ensures
        0 <= cursor(start, t).0 <= start.0 + bytes_of(t).len(),
        0 <= cursor(start, t).1 <= start.1 + bytes_of(t).len(),
    decreases t.len(),
{
    if t.len() > 0 {
        let init = t.drop_last();
        lemma_cursor_bound(start, init);
        assert(init.push(t.last()) =~= t);
        lemma_bytes_push(init, t.last());
    }
}

/// A map has no more entries than the text has bytes.
pub(crate) proof fn lemma_cells_bound(start: (int, int), strip: nat, t: Seq<char>)
    ensures
        cells(start, strip, t).len() <= bytes_of(t).len(),
    decreases t.len(),
{
    if t.len() > 0 {
        let init = t.drop_last();
        lemma_cells_bound(start, strip, init);
        assert(init.push(t.last()) =~= t);
        lemma_bytes_push(init, t.last());
    }
}

/// A block that ends within the first 4 GiB of a source has a map that can be written down.
pub(crate) proof fn lemma_map_fits(t: Seq<char>, start: (int, int), strip: nat)
    requires
        0 <= start.0,
        0 <= start.1,
        start.0 + bytes_of(t).len() <= u32::MAX,
        start.1 + bytes_of(t).len() <= u32::MAX,
    ensures
        map_fits(t, start, strip),
{
    lemma_cells_bound(start, strip, t);
    assert forall|n: int| 0 <= n <= t.len() implies ({
        let at = #[trigger] cursor(start, t.take(n));
        at.0 <= u32::MAX && at.1 <= u32::MAX
    }) by {
        assert(t.take(n) + t.skip(n) =~= t);
        lemma_bytes_concat(t.take(n), t.skip(n));
        lemma_cursor_bound(start, t.take(n));
    }
}

/// Finds the place behind `text`, where it starts at the front of the document.
pub fn place_behind(text: &str) -> (at: (u32, u32))
    requires
        bytes_of(text@).len() <= u32::MAX,
    ensures
        (at.0 as int, at.1 as int) == cursor((0, 0), text@),
{
    let ghost all = text@;
    let mut line: u32 = 0;
    let mut col: u32 = 0;
    for c in it: text.chars()
        invariant
            it.seq() == all,
            bytes_of(all).len() <= u32::MAX,
            (line as int, col as int) == cursor((0, 0), all.take(it.index() as int)),
    {
        proof {
            let n = it.index() + 1;
            assert(all.take(n).drop_last() =~= all.take(n - 1));
            assert(all.take(n) + all.skip(n) =~= all);
            lemma_bytes_concat(all.take(n), all.skip(n));
            lemma_cursor_bound((0, 0), all.take(n));
        }
        if c == '\n' {
            line = line + 1;
            col = 0;
        } else {
            col = col + len_utf16(c);
        }
    }
    assert(all.take(all.len() as int) =~= all);
    (line, col)
}

/// Whether the map can be written down: every place and the number of bytes fit in 32 bits.
pub open spec fn map_fits(chars: Seq<char>, start: (int, int), strip: nat) -> bool {
    &&& forall|n: int|
        0 <= n <= chars.len() ==> {
            let at = #[trigger] cursor(start, chars.take(n));
            at.0 <= u32::MAX && at.1 <= u32::MAX
        }
    &&& cells(start, strip, chars).len() <= u32::MAX
}

/// A table from the bytes of a dedented block to places in the document.
#[derive(Debug)]
pub struct BlockMap {
    lines: Vec<u32>,
    cols: Vec<u32>,
    dedented_len: u32,
    end_line: u32,
    end_col: u32,
}

impl View for BlockMap {
    type V = MapModel;

    closed spec fn view(&self) -> MapModel {
        MapModel {
            cells: Seq::new(
                self.lines@.len(),
                |i: int| (self.lines@[i] as int, self.cols@[i] as int),
            ),
            end: (self.end_line as int, self.end_col as int),
        }
    }
}

impl BlockMap {
    #[verifier::type_invariant]
    spec fn consistent(self) -> bool {
        &&& self.lines@.len() == self.cols@.len()
        &&& self.lines@.len() == self.dedented_len
    }

    /// Builds the map of a block with text `block_text` that starts at the given place.
    /// `strip` is the number of spaces and tabs taken off the front of each line but the
    /// first.
    pub fn build(block_text: &str, start_line: u32, start_col: u32, strip: u32) -> (map: BlockMap)
        requires
            map_fits(block_text@, (start_line as int, start_col as int), strip as nat),
        ensures
            map@ == map_of(block_text@, (start_line as int, start_col as int), strip as nat),
    {
        BlockMap::try_build(block_text, start_line, start_col, strip).unwrap()
    }

    /// Builds the map as `build` does, or reports that it cannot be written down.
    pub fn try_build(block_text: &str, start_line: u32, start_col: u32, strip: u32) -> (map: Option<
        BlockMap,
    >)
        ensures
            map is Some <==> map_fits(
                block_text@,
                (start_line as int, start_col as int),
                strip as nat,
            ),
            map matches Some(m) ==> m@ == map_of(
                block_text@,
                (start_line as int, start_col as int),
                strip as nat,
            ),
    {
        let chars = chars_of(block_text);
        let ghost start = (start_line as int, start_col as int);
        let ghost all = chars@;
        let mut lines: Vec<u32> = Vec::new();
        let mut cols: Vec<u32> = Vec::new();
        let mut line: u32 = start_line;
        let mut col: u32 = start_col;
        let mut skip: u32 = 0;
        let mut i: usize = 0;
        while i < chars.len()
            invariant
                all == chars@,
                all == block_text@,
                start == (start_line as int, start_col as int),
                i <= chars.len(),
                (line as int, col as int) == cursor(start, all.take(i as int)),
                skip == margin(all.take(i as int), strip as nat),
                lines@.len() == cols@.len(),
                pairs(lines@, cols@) == cells(start, strip as nat, all.take(i as int)),
                forall|n: int|
                    0 <= n <= i ==> {
                        let at = #[trigger] cursor(start, all.take(n));
                        at.0 <= u32::MAX && at.1 <= u32::MAX
                    },
            decreases chars.len() - i,
        {
            let c = chars[i];
            proof {
                assert(all.take(i + 1).drop_last() =~= all.take(i as int));
                assert(cursor(start, all.take(i + 1)) == advance(
                    cursor(start, all.take(i as int)),
                    c,
                ));
            }
            if (c == ' ' || c == '\t') && skip > 0 {
                skip = skip - 1;
            } else {
                let n = len_utf8(c);
                let ghost was = pairs(lines@, cols@);
                let ghost at = (line as int, col as int);
                let mut k: usize = 0;
                while k < n
                    invariant
                        k <= n == utf8_width(c),
                        at == (line as int, col as int),
                        lines@.len() == cols@.len(),
                        pairs(lines@, cols@) == was + Seq::new(k as nat, |b: int| at),
                    decreases n - k,
                {
                    let ghost filled = pairs(lines@, cols@);
                    lines.push(line);
                    cols.push(col);
                    k = k + 1;
                    assert(pairs(lines@, cols@) =~= filled.push(at));
                    assert(filled.push(at) =~= was + Seq::new(k as nat, |b: int| at));
                }
                skip = if c == '\n' {
                    strip
                } else {
                    0
                };
            }
            if c == '\n' {
                if line == u32::MAX {
                    return None;
                }
                line = line + 1;
                col = 0;
            } else {
                let w = len_utf16(c);
                if col > u32::MAX - w {
                    return None;
                }
                col = col + w;
            }
            i = i + 1;
        }
        assert(all.take(all.len() as int) =~= all);
        if lines.len() > u32::MAX as usize {
            return None;
        }
        let dedented_len = lines.len() as u32;
        let map = BlockMap { lines, cols, dedented_len, end_line: line, end_col: col };
        assert(map@.cells =~= pairs(lines@, cols@));
        Some(map)
    }

    /// The number of bytes of the dedented text.
    pub fn dedented_len(&self) -> (n: u32)
        ensures
            n == self@.cells.len(),
    {
        proof {
            use_type_invariant(self);
        }
        self.dedented_len
    }

    /// The place of a dedented byte offset; the place behind the last character at or past
    /// the end.
    pub fn pos_at(&self, off: u32) -> (p: (u32, u32))
        ensures
            (p.0 as int, p.1 as int) == place_at(self@, off as int),
    {
        proof {
            use_type_invariant(self);
        }
        let n = self.lines.len();
        if (off as usize) < n {
            (self.lines[off as usize], self.cols[off as usize])
        } else {
            (self.end_line, self.end_col)
        }
    }
}

spec fn pairs(a: Seq<u32>, b: Seq<u32>) -> Seq<(int, int)> {
    Seq::new(a.len(), |i: int| (a[i] as int, b[i] as int))
}

/// A text of one line keeps its indentation: the first line is not dedented.
pub proof fn first_line_is_kept(chars: Seq<char>, strip: nat)
    requires
        !chars.contains('\n'),
    ensures
        dedented(chars, strip) == chars,
        margin(chars, strip) == 0,
    decreases chars.len(),
{
    if chars.len() > 0 {
        let init = chars.drop_last();
        assert(chars.contains(chars.last()));
        assert forall|c: char| init.contains(c) implies chars.contains(c) by {
            let k = choose|k: int| 0 <= k < init.len() && init[k] == c;
            assert(chars[k] == c);
        }
        first_line_is_kept(init, strip);
        assert(init.push(chars.last()) =~= chars);
    } else {
        assert(dedented(chars, strip) =~= chars);
    }
}

/// Up to `strip` spaces and tabs at the start of a line are stripped.
pub proof fn indentation_is_stripped(ahead: Seq<char>, blanks: Seq<char>, strip: nat)
    requires
        ahead.len() > 0,
        ahead.last() == '\n',
        forall|k: int| 0 <= k < blanks.len() ==> is_blank(#[trigger] blanks[k]),
        blanks.len() <= strip,
    ensures
        dedented(ahead + blanks, strip) == dedented(ahead, strip),
        margin(ahead + blanks, strip) == strip - blanks.len(),
    decreases blanks.len(),
{
    if blanks.len() == 0 {
        assert(ahead + blanks =~= ahead);
    } else {
        let init = blanks.drop_last();
        assert((ahead + blanks).drop_last() =~= ahead + init);
        assert((ahead + blanks).last() == blanks[blanks.len() - 1]);
        indentation_is_stripped(ahead, init, strip);
    }
}

/// A line of no more than `strip` spaces and tabs is preserved as an empty line.
pub proof fn blank_lines_are_kept_empty(ahead: Seq<char>, blanks: Seq<char>, strip: nat)
    requires
        ahead.len() > 0,
        ahead.last() == '\n',
        forall|k: int| 0 <= k < blanks.len() ==> is_blank(#[trigger] blanks[k]),
        blanks.len() <= strip,
    ensures
        dedented((ahead + blanks).push('\n'), strip) == dedented(ahead, strip).push('\n'),
{
    indentation_is_stripped(ahead, blanks, strip);
    assert((ahead + blanks).push('\n').drop_last() =~= ahead + blanks);
}

/// A block map has one entry for each byte of the dedented text.
pub proof fn map_is_byte_indexed(chars: Seq<char>, start: (int, int), strip: nat)
    ensures
        map_of(chars, start, strip).cells.len() == bytes_of(dedented(chars, strip)).len(),
    decreases chars.len(),
{
    if chars.len() > 0 {
        let init = chars.drop_last();
        map_is_byte_indexed(init, start, strip);
        if !(is_blank(chars.last()) && margin(init, strip) > 0) {
            lemma_bytes_push(dedented(init, strip), chars.last());
        }
    }
}

proof fn lemma_cells_prefix(chars: Seq<char>, n: int, start: (int, int), strip: nat)
    requires
        0 <= n <= chars.len(),
    ensures
        cells(start, strip, chars.take(n)).len() <= cells(start, strip, chars).len(),
        forall|k: int|
            0 <= k < cells(start, strip, chars.take(n)).len() ==> #[trigger] cells(
                start,
                strip,
                chars,
            )[k] == cells(start, strip, chars.take(n))[k],
    decreases chars.len(),
{
    if n < chars.len() {
        let init = chars.drop_last();
        assert(init.take(n) =~= chars.take(n));
        lemma_cells_prefix(init, n, start, strip);
    } else {
        assert(chars.take(n) =~= chars);
    }
}

/// The place behind two texts, one after the other.
pub(crate) proof fn lemma_cursor_concat(start: (int, int), a: Seq<char>, b: Seq<char>)
    ensures
        cursor(start, a + b) == cursor(cursor(start, a), b),
    decreases b.len(),
{
    if b.len() == 0 {
        assert(a + b =~= a);
    } else {
        assert((a + b).drop_last() =~= a + b.drop_last());
        lemma_cursor_concat(start, a, b.drop_last());
    }
}

/// The map of a block that starts where the document text `ahead` ends sends every byte of
/// every character that is not stripped to the place of that character in the document.
pub proof fn map_gives_document_places(
    ahead: Seq<char>,
    chars: Seq<char>,
    strip: nat,
    n: int,
    b: int,
)
    requires
        0 <= n < chars.len(),
        !stripped(chars, n, strip),
        0 <= b < utf8_width(chars[n]),
    ensures
        place_at(
            map_of(chars, cursor((0, 0), ahead), strip),
            bytes_of(dedented(chars.take(n), strip)).len() + b,
        ) == cursor((0, 0), ahead + chars.take(n)),
{
    let start = cursor((0, 0), ahead);
    map_is_byte_indexed(chars.take(n), start, strip);
    let upto = chars.take(n + 1);
    assert(upto.drop_last() =~= chars.take(n));
    assert(upto.last() == chars[n]);
    lemma_cells_prefix(chars, n + 1, start, strip);
    lemma_cursor_concat((0, 0), ahead, chars.take(n));
    let at = cells(start, strip, chars.take(n)).len() + b;
    assert(cells(start, strip, upto)[at] == cursor(start, chars.take(n)));
    assert(cells(start, strip, chars)[at] == cells(start, strip, upto)[at]);
}

proof fn lemma_cell_not_behind_cursor(start: (int, int), strip: nat, chars: Seq<char>, i: int)
    requires
        0 <= i < cells(start, strip, chars).len(),
    ensures
        !before(cursor(start, chars), cells(start, strip, chars)[i]),
    decreases chars.len(),
{
    let init = chars.drop_last();
    let n = cells(start, strip, init).len();
    if i < n {
        lemma_cell_not_behind_cursor(start, strip, init, i);
    }
}

proof fn lemma_cells_in_order(start: (int, int), strip: nat, chars: Seq<char>, i: int, j: int)
    requires
        0 <= i <= j < cells(start, strip, chars).len(),
    ensures
        !before(cells(start, strip, chars)[j], cells(start, strip, chars)[i]),
    decreases chars.len(),
{
    let init = chars.drop_last();
    let n = cells(start, strip, init).len();
    if j < n {
        lemma_cells_in_order(start, strip, init, i, j);
    } else if i < n {
        lemma_cell_not_behind_cursor(start, strip, init, i);
    }
}

/// A block map keeps order: a later byte never stands before an earlier one.
pub proof fn map_keeps_order(chars: Seq<char>, start: (int, int), strip: nat, i: int, j: int)
    requires
        0 <= i <= j,
    ensures
        !before(
            place_at(map_of(chars, start, strip), j),
            place_at(map_of(chars, start, strip), i),
        ),
{
    let n = cells(start, strip, chars).len();
    if j < n {
        lemma_cells_in_order(start, strip, chars, i, j);
    } else if i < n {
        lemma_cell_not_behind_cursor(start, strip, chars, i);
    }
}

} // verus!
