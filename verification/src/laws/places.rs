//! Places in a text, and what dedenting leaves of it.
use vstd::prelude::*;
use crate::blockmap::{cells, char_cells, cursor, is_blank, map_of, margin, place_at, stripped};
use crate::laws::{lemma_lists_next, lemma_lists_none, lists_all, with_next};
use crate::text::{utf16_width, utf8_width};

verus! {

/// The number of UTF-16 units of a text.
pub open spec fn units(s: Seq<char>) -> int
    decreases s.len(),
{
    if s.len() == 0 {
        0
    } else {
        units(s.drop_last()) + if s.last() as u32 >= 0x10000 {
            2int
        } else {
            1
        }
    }
}

/// The number of UTF-8 bytes of a character.
pub open spec fn octets(c: char) -> int {
    if (c as u32) < 0x80 {
        1
    } else if (c as u32) < 0x800 {
        2
    } else if (c as u32) < 0x10000 {
        3
    } else {
        4
    }
}

/// Whether `breaks` are the line breaks among the first `n` characters of a text.
pub open spec fn are_breaks(text: Seq<char>, n: int, breaks: Seq<int>) -> bool {
    lists_all(breaks, n, |k: int| text[k] == '\n')
}

/// Whether a line other than the first starts at `line`.
pub open spec fn opens_line(text: Seq<char>, line: int) -> bool {
    0 < line <= text.len() && text[line - 1] == '\n'
}

/// Whether character `n` of a text that starts at `start` stands at `p`: as many lines down as
/// line breaks come before it, at the column of the UTF-16 units since the last of them.
pub open spec fn stands_at(start: (int, int), text: Seq<char>, n: int, p: (int, int)) -> bool {
    exists|breaks: Seq<int>| #[trigger]
        are_breaks(text, n, breaks) && p.0 == start.0 + breaks.len() && p.1 == (
        if breaks.len() == 0 {
            start.1 + units(text.subrange(0, n))
        } else {
            units(text.subrange(breaks.last() + 1, n))
        })
}

/// Whether character `n` of the document `src` stands at `p`.
pub open spec fn is_place(src: Seq<char>, n: int, p: (int, int)) -> bool {
    stands_at((0, 0), src, n, p)
}

/// Whether dedenting by `strip` takes character `k` off: it is one of the first `strip`
/// characters of a line other than the first, and nothing but spaces and tabs stands before it
/// on that line.
pub open spec fn is_indent(text: Seq<char>, k: int, strip: int) -> bool {
    exists|line: int|
        #![trigger opens_line(text, line)]
        opens_line(text, line) && line <= k && k - line < strip && (forall|j: int|
            line <= j <= k ==> #[trigger] text[j] == ' ' || text[j] == '\t')
}

/// The number of bytes of the first `j` of the characters `kept`.
pub open spec fn kept_bytes(text: Seq<char>, kept: Seq<int>, j: int) -> int
    decreases j,
{
    if j <= 0 {
        0
    } else {
        kept_bytes(text, kept, j - 1) + octets(text[kept[j - 1]])
    }
}

/// Whether `kept` are the characters of `text` that dedenting by `strip` leaves.
pub open spec fn leaves(text: Seq<char>, strip: int, kept: Seq<int>) -> bool {
    lists_all(kept, text.len() as int, |k: int| !is_indent(text, k, strip))
}

/// Whether byte `off` of what dedenting leaves belongs to character `n` of `text`; behind the
/// last byte that is the end of the text.
pub open spec fn byte_of(text: Seq<char>, kept: Seq<int>, off: int, n: int) -> bool {
    ||| exists|j: int|
        0 <= j < kept.len() && #[trigger] kept[j] == n && kept_bytes(text, kept, j) <= off
            < kept_bytes(text, kept, j) + octets(text[n])
    ||| off >= kept_bytes(text, kept, kept.len() as int) && n == text.len()
}

/// Whether byte `off` belongs to a character, or stands for the end of the text.
pub open spec fn byte_of_some(text: Seq<char>, kept: Seq<int>, off: int) -> bool {
    exists|n: int| #[trigger] byte_of(text, kept, off, n)
}

proof fn lemma_widths(c: char)
    ensures
        utf8_width(c) == octets(c),
        octets(c) >= 1,
        utf16_width(c) == (if c as u32 >= 0x10000 {
            2int
        } else {
            1
        }),
{
}

/// The place behind the first `n` characters of a text.
pub(crate) proof fn lemma_cursor(start: (int, int), text: Seq<char>, n: int) -> (breaks: Seq<int>)
    requires
        0 <= n <= text.len(),
    ensures
        are_breaks(text, n, breaks),
        cursor(start, text.take(n)) == (
            start.0 + breaks.len(),
            if breaks.len() == 0 {
                start.1 + units(text.subrange(0, n))
            } else {
                units(text.subrange(breaks.last() + 1, n))
            },
        ),
    decreases n,
{
    let p = |k: int| text[k] == '\n';
    if n == 0 {
        lemma_lists_none(p);
        assert(text.take(0) =~= Seq::<char>::empty());
        assert(text.subrange(0, 0) =~= Seq::<char>::empty());
        Seq::empty()
    } else {
        let ix = lemma_cursor(start, text, n - 1);
        assert(text.take(n).drop_last() =~= text.take(n - 1));
        let c = text[n - 1];
        assert(text.take(n).last() == c);
        lemma_widths(c);
        lemma_lists_next(ix, n - 1, p);
        let all = with_next(ix, n - 1, p);
        if c == '\n' {
            assert(all.last() == n - 1);
            assert(text.subrange(n, n) =~= Seq::<char>::empty());
        } else {
            let from = if ix.len() == 0 {
                0
            } else {
                ix.last() + 1
            };
            if ix.len() > 0 {
                assert(ix[ix.len() - 1] < n - 1);
            }
            assert(text.subrange(from, n).drop_last() =~= text.subrange(from, n - 1));
        }
        all
    }
}

proof fn lemma_margin(text: Seq<char>, n: int, strip: nat)
    requires
        0 <= n <= text.len(),
    ensures
        margin(text.take(n), strip) > 0 ==> exists|line: int|
            #![trigger opens_line(text, line)]
            opens_line(text, line) && line <= n && n - line < strip && margin(
                text.take(n),
                strip,
            ) == strip - (n - line) && (forall|j: int|
                line <= j < n ==> is_blank(#[trigger] text[j])),
        forall|line: int|
            #![trigger opens_line(text, line)]
            opens_line(text, line) && line <= n && n - line < strip && (forall|j: int|
                line <= j < n ==> is_blank(#[trigger] text[j])) ==> margin(text.take(n), strip)
                == strip - (n - line),
    decreases n,
{
    let t = text.take(n);
    if n > 0 {
        lemma_margin(text, n - 1, strip);
        let c = text[n - 1];
        assert(t.drop_last() =~= text.take(n - 1));
        assert(t.last() == c);
        if margin(t, strip) > 0 {
            if c == '\n' {
                let line = n;
                assert(opens_line(text, line));
            } else {
                let line = choose|line: int|
                    #![trigger opens_line(text, line)]
                    opens_line(text, line) && line <= n - 1 && n - 1 - line < strip && margin(
                        text.take(n - 1),
                        strip,
                    ) == strip - (n - 1 - line) && (forall|j: int|
                        line <= j < n - 1 ==> is_blank(#[trigger] text[j]));
                assert(opens_line(text, line) && n - line < strip);
            }
        }
        assert forall|line: int|
            #![trigger opens_line(text, line)]
            opens_line(text, line) && line <= n && n - line < strip && (forall|j: int|
                line <= j < n ==> is_blank(#[trigger] text[j])) implies margin(t, strip) == strip
            - (n - line) by {
            if line < n {
                assert(is_blank(text[n - 1]));
                assert(margin(text.take(n - 1), strip) == strip - (n - 1 - line));
            }
        }
    }
}

proof fn lemma_indent(text: Seq<char>, n: int, strip: nat)
    requires
        0 <= n < text.len(),
    ensures
        stripped(text, n, strip) == is_indent(text, n, strip as int),
{
    lemma_margin(text, n, strip);
    if stripped(text, n, strip) {
        let line = choose|line: int|
            #![trigger opens_line(text, line)]
            opens_line(text, line) && line <= n && n - line < strip && margin(
                text.take(n),
                strip,
            ) == strip - (n - line) && (forall|j: int|
                line <= j < n ==> is_blank(#[trigger] text[j]));
        assert(opens_line(text, line));
        assert forall|j: int| line <= j <= n implies #[trigger] text[j] == ' ' || text[j]
            == '\t' by {
            if j < n {
                assert(is_blank(text[j]));
            }
        }
    }
    if is_indent(text, n, strip as int) {
        let line = choose|line: int|
            #![trigger opens_line(text, line)]
            opens_line(text, line) && line <= n && n - line < strip && (forall|j: int|
                line <= j <= n ==> #[trigger] text[j] == ' ' || text[j] == '\t');
        assert(opens_line(text, line));
        assert forall|j: int| line <= j < n implies is_blank(#[trigger] text[j]) by {}
        assert(text[n] == ' ' || text[n] == '\t');
    }
}

spec fn is_byte(text: Seq<char>, kept: Seq<int>, j: int, b: int) -> bool {
    0 <= j < kept.len() && 0 <= b < octets(text[kept[j]])
}

proof fn lemma_kept(start: (int, int), text: Seq<char>, strip: nat, n: int) -> (kept: Seq<int>)
    requires
        0 <= n <= text.len(),
    ensures
        lists_all(kept, n, |k: int| !is_indent(text, k, strip as int)),
        cells(start, strip, text.take(n)).len() == kept_bytes(text, kept, kept.len() as int),
        forall|j: int, b: int|
            #![trigger is_byte(text, kept, j, b)]
            is_byte(text, kept, j, b) ==> 0 <= kept_bytes(text, kept, j)
                + b < cells(start, strip, text.take(n)).len() && cells(
                start,
                strip,
                text.take(n),
            )[kept_bytes(text, kept, j) + b] == cursor(start, text.take(kept[j])),
    decreases n,
{
    let p = |k: int| !is_indent(text, k, strip as int);
    if n == 0 {
        lemma_lists_none(p);
        assert(text.take(0) =~= Seq::<char>::empty());
        Seq::empty()
    } else {
        let ix = lemma_kept(start, text, strip, n - 1);
        lemma_indent(text, n - 1, strip);
        lemma_lists_next(ix, n - 1, p);
        let all = with_next(ix, n - 1, p);
        let t = text.take(n);
        let was = cells(start, strip, text.take(n - 1));
        let now = cells(start, strip, t);
        let c = text[n - 1];
        assert(t.drop_last() =~= text.take(n - 1));
        assert(t.last() == c);
        lemma_widths(c);
        lemma_kept_bytes(text, ix, all, ix.len() as int);
        if p(n - 1) {
            assert(now == was + char_cells(c, cursor(start, text.take(n - 1))));
            assert(all[ix.len() as int] == n - 1);
            assert forall|j: int, b: int|
                #![trigger is_byte(text, all, j, b)]
                is_byte(text, all, j, b) implies 0 <= kept_bytes(
                text,
                all,
                j,
            ) + b < now.len() && now[kept_bytes(text, all, j) + b] == cursor(
                start,
                text.take(all[j]),
            ) by {
                if j < ix.len() {
                    assert(all[j] == ix[j]);
                    lemma_kept_bytes(text, ix, all, j);
                    assert(is_byte(text, ix, j, b));
                    assert(now[kept_bytes(text, ix, j) + b] == was[kept_bytes(text, ix, j) + b]);
                } else {
                    assert(now[was.len() + b] == cursor(start, text.take(n - 1)));
                }
            }
        } else {
            assert(now == was);
        }
        all
    }
}

proof fn lemma_kept_bytes(text: Seq<char>, a: Seq<int>, b: Seq<int>, j: int)
    requires
        0 <= j <= a.len() <= b.len(),
        forall|k: int| 0 <= k < a.len() ==> #[trigger] a[k] == b[k],
    ensures
        kept_bytes(text, a, j) == kept_bytes(text, b, j),
    decreases j,
{
    if j > 0 {
        lemma_kept_bytes(text, a, b, j - 1);
        assert(a[j - 1] == b[j - 1]);
    }
}

pub(crate) proof fn lemma_map_cursor(start: (int, int), text: Seq<char>, strip: nat) -> (kept: Seq<
    int,
>)
    ensures
        leaves(text, strip as int, kept),
        map_of(text, start, strip).cells.len() == kept_bytes(text, kept, kept.len() as int),
        forall|off: int, n: int| #[trigger]
            byte_of(text, kept, off, n) ==> 0 <= n <= text.len() && place_at(
                map_of(text, start, strip),
                off,
            ) == cursor(start, text.take(n)),
        forall|off: int| 0 <= off ==> #[trigger] byte_of_some(text, kept, off),
{
    let len = text.len() as int;
    let kept = lemma_kept(start, text, strip, len);
    assert(text.take(len) =~= text);
    let map = map_of(text, start, strip);
    let total = kept_bytes(text, kept, kept.len() as int);
    assert forall|off: int, n: int| #[trigger] byte_of(text, kept, off, n) implies 0 <= n <= len
        && place_at(map, off) == cursor(start, text.take(n)) by {
        if !(off >= total && n == len) {
            let j = choose|j: int|
                0 <= j < kept.len() && #[trigger] kept[j] == n && kept_bytes(text, kept, j) <= off
                    < kept_bytes(text, kept, j) + octets(text[n]);
            lemma_kept_positive(text, kept, j);
            let b = off - kept_bytes(text, kept, j);
            assert(is_byte(text, kept, j, b));
        } else {
            lemma_kept_positive(text, kept, kept.len() as int);
        }
    }
    assert forall|off: int| 0 <= off implies #[trigger] byte_of_some(text, kept, off) by {
        if off >= total {
            assert(byte_of(text, kept, off, len));
        } else {
            let j = lemma_find(text, kept, off, kept.len() as int);
            assert(byte_of(text, kept, off, kept[j]));
        }
    }
    kept
}

/// A block map of a text that starts at `start`: every byte of what dedenting leaves is sent to
/// the place of its character, every offset behind them to the place behind the text, and
/// there are as many bytes as the left characters have.
pub proof fn block_map_gives_places(start: (int, int), text: Seq<char>, strip: nat) -> (kept: Seq<
    int,
>)
    ensures
        leaves(text, strip as int, kept),
        map_of(text, start, strip).cells.len() == kept_bytes(text, kept, kept.len() as int),
        forall|off: int, n: int| #[trigger]
            byte_of(text, kept, off, n) ==> stands_at(
                start,
                text,
                n,
                place_at(map_of(text, start, strip), off),
            ),
        forall|off: int| 0 <= off ==> #[trigger] byte_of_some(text, kept, off),
{
    let kept = lemma_map_cursor(start, text, strip);
    assert forall|off: int, n: int| #[trigger] byte_of(text, kept, off, n) implies stands_at(
        start,
        text,
        n,
        place_at(map_of(text, start, strip), off),
    ) by {
        let breaks = lemma_cursor(start, text, n);
    }
    kept
}

proof fn lemma_kept_positive(text: Seq<char>, kept: Seq<int>, j: int)
    ensures
        kept_bytes(text, kept, j) >= 0,
    decreases j,
{
    if j > 0 {
        lemma_kept_positive(text, kept, j - 1);
    }
}

proof fn lemma_find(text: Seq<char>, kept: Seq<int>, off: int, n: int) -> (j: int)
    requires
        0 <= off < kept_bytes(text, kept, n),
        0 <= n <= kept.len(),
    ensures
        0 <= j < n,
        kept_bytes(text, kept, j) <= off < kept_bytes(text, kept, j) + octets(text[kept[j]]),
    decreases n,
{
    if off >= kept_bytes(text, kept, n - 1) {
        n - 1
    } else {
        lemma_find(text, kept, off, n - 1)
    }
}

} // verus!
