//! What an editor can rely on, stated from the front end's results and the answers it gets.
//!
//! The words of these laws are defined here and not shared with the rest of the library.
use vstd::prelude::*;
use crate::json::{json_reads_back, json_text, read_json, Entry, Json};
use crate::syntax::{Node, NodeKind, Span};

pub mod blocks;
pub mod comments;
pub mod diagnostics;
pub mod imports;
pub mod lexer;
pub mod maps;
pub mod navigation;
pub mod places;
pub mod tokens;
pub mod tree;

verus! {

/// A line number of the front end as the editor counts lines: from 0.
pub open spec fn editor_line(line: u32) -> int {
    if line == 0 {
        0
    } else {
        line - 1
    }
}

/// Whether `ix` holds, in increasing order, exactly the numbers below `n` with property `p`.
pub open spec fn lists_all(ix: Seq<int>, n: int, p: spec_fn(int) -> bool) -> bool {
    &&& forall|i: int, j: int| #![trigger ix[i], ix[j]] 0 <= i < j < ix.len() ==> ix[i] < ix[j]
    &&& forall|i: int| 0 <= i < ix.len() ==> 0 <= #[trigger] ix[i] < n && p(ix[i])
    &&& forall|k: int| 0 <= k < n && p(k) ==> #[trigger] ix.contains(k)
}

/// `ix` with `n` behind it, if `n` has the property.
pub open spec fn with_next(ix: Seq<int>, n: int, p: spec_fn(int) -> bool) -> Seq<int> {
    if p(n) {
        ix.push(n)
    } else {
        ix
    }
}

pub(crate) proof fn lemma_lists_next(ix: Seq<int>, n: int, p: spec_fn(int) -> bool)
    requires
        lists_all(ix, n, p),
        0 <= n,
    ensures
        lists_all(with_next(ix, n, p), n + 1, p),
{
    let all = with_next(ix, n, p);
    assert forall|i: int| 0 <= i < all.len() implies 0 <= #[trigger] all[i] < n + 1 && p(
        all[i],
    ) by {
        if i < ix.len() {
            assert(all[i] == ix[i]);
        }
    }
    assert forall|i: int, j: int|
        #![trigger all[i], all[j]]
        0 <= i < j < all.len() implies all[i] < all[j] by {
        assert(all[i] == ix[i]);
        if j < ix.len() {
            assert(all[j] == ix[j]);
        }
    }
    assert forall|k: int| 0 <= k < n + 1 && p(k) implies #[trigger] all.contains(k) by {
        if k < n {
            assert(ix.contains(k));
            let i = choose|i: int| 0 <= i < ix.len() && ix[i] == k;
            assert(all[i] == k);
        } else {
            assert(all[ix.len() as int] == n);
        }
    }
}

/// Whether the four numbers at `at` show where `span` is: line, column, end line, end column.
pub open spec fn shows(numbers: Seq<u32>, at: int, span: Span) -> bool {
    &&& 0 <= at
    &&& at + 4 <= numbers.len()
    &&& numbers[at] == editor_line(span.start.line)
    &&& numbers[at + 1] == span.start.col
    &&& numbers[at + 2] == editor_line(span.end.line)
    &&& numbers[at + 3] == span.end.col
}

/// Whether the object `j` has a member with the given key and value.
pub open spec fn has(j: Json, key: Seq<char>, value: Json) -> bool {
    j matches Json::Object(entries) && exists|k: int|
        0 <= k < entries.len() && #[trigger] entries[k] == (Entry { key, value })
}

/// The number of members of an object.
pub open spec fn size(j: Json) -> nat {
    match j {
        Json::Object(entries) => entries.len(),
        _ => 0,
    }
}

/// Whether the object `j` gives the place of `span`.
pub open spec fn has_place(j: Json, span: Span) -> bool {
    &&& has(j, "line"@, Json::Number(editor_line(span.start.line) as nat))
    &&& has(j, "col"@, Json::Number(span.start.col as nat))
    &&& has(j, "endLine"@, Json::Number(editor_line(span.end.line) as nat))
    &&& has(j, "endCol"@, Json::Number(span.end.col as nat))
}

/// Whether `root` is a module without expressions.
pub open spec fn nothing_to_desugar(root: Node) -> bool {
    root.kind matches NodeKind::Module { exprs } && exprs@.len() == 0
}

/// Whether `text` is the JSON text of a list with the items `js`.
pub open spec fn reads_as(text: Seq<char>, js: Seq<Json>) -> bool {
    read_json(text) == Some((Json::List(js), Seq::<char>::empty()))
}

pub(crate) proof fn lemma_reads_as(js: Seq<Json>)
    ensures
        reads_as(json_text(Json::List(js)), js),
{
    let none = Seq::<char>::empty();
    let text = json_text(Json::List(js));
    json_reads_back(Json::List(js), none);
    assert(text + none =~= text);
}

pub(crate) proof fn lemma_lists_none(p: spec_fn(int) -> bool)
    ensures
        lists_all(Seq::<int>::empty(), 0, p),
{
}

} // verus!
