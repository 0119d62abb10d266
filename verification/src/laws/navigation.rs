//! Laws of going to definitions and finding references.
use vstd::prelude::*;
use crate::document::{
    bind_under, covers, definition, document_of, ident_under, module_site, opt_quad, quads,
    references,
};
use crate::laws::{editor_line, lemma_lists_next, lists_all, nothing_to_desugar, shows, with_next};
use crate::scope::{exports, last_bind, BindOrigin, Desugared, IdentModel};
use crate::sort::{
    before, sorted, sorted_commutes_with_map, sorted_is_ranked, sorted_keeps_items, Placed,
};
use crate::syntax::{Loc, Node, Span, Token};

verus! {

/// Whether node `id` of the desugared tree is an identifier.
pub open spec fn is_name(d: Desugared, id: int) -> bool {
    0 <= id < d.nodes@.len() && d.nodes@[id] is Some && d.nodes@[id]->0.name is Some
}

/// Where node `id` stands.
pub open spec fn span_at(d: Desugared, id: int) -> Span {
    d.nodes@[id]->0.loc
}

/// Whether the cursor touches the identifier `id`.
pub open spec fn touches(d: Desugared, id: int, line: u32, col: u32) -> bool {
    &&& is_name(d, id)
    &&& editor_line(span_at(d, id).start.line) == line
    &&& span_at(d, id).start.col <= col < span_at(d, id).end.col
}

/// Whether `id` is the identifier that the cursor means: of those it touches the leftmost, and
/// of several that start at the same column the first node.
pub open spec fn means(d: Desugared, id: int, line: u32, col: u32) -> bool {
    &&& touches(d, id, line, col)
    &&& forall|other: int| #[trigger]
        touches(d, other, line, col) && other != id ==> span_at(d, id).start.col < span_at(
            d,
            other,
        ).start.col || (span_at(d, id).start.col == span_at(d, other).start.col && id < other)
}

/// Whether the table of resolved names sends node `id` to binding `b`.
pub open spec fn refers_to(d: Desugared, id: int, b: int) -> bool {
    is_name(d, id) && id < d.resolution@.len() && d.resolution@[id] is Some && d.resolution@[id]->0
        == b
}

/// Whether node `id` introduces binding `b`.
pub open spec fn introduces(d: Desugared, id: int, b: int) -> bool {
    0 <= b < d.binds@.len() && d.binds@[b].origin == BindOrigin::Ast(id as u32)
}

/// Whether the identifier `id` leads to binding `b`: it refers to it, or it refers to nothing
/// and `b` is the last binding that it introduces.
pub open spec fn leads_to(d: Desugared, id: int, b: int) -> bool {
    ||| refers_to(d, id, b)
    ||| {
        &&& id >= d.resolution@.len() || d.resolution@[id] is None
        &&& introduces(d, id, b)
        &&& forall|later: int| b < later ==> !#[trigger] introduces(d, id, later)
    }
}

/// Whether 32 bits can number the nodes and bindings, and every binding that is referred to
/// exists.
pub open spec fn is_sound(d: Desugared) -> bool {
    &&& d.nodes@.len() <= u32::MAX
    &&& d.binds@.len() <= u32::MAX
    &&& forall|id: int, b: int| #[trigger] refers_to(d, id, b) ==> b < d.binds@.len()
}

/// An identifier together with its node number.
struct Tagged {
    entry: IdentModel,
    id: int,
}

impl Placed for Tagged {
    closed spec fn place(self) -> (int, int) {
        self.entry.place()
    }
}

spec fn tagged(d: Desugared, n: int) -> Seq<Tagged>
    decreases n,
{
    if n <= 0 {
        Seq::empty()
    } else if d.name_at(n - 1) is Some {
        tagged(d, n - 1).push(Tagged { entry: d.ident_at(n - 1), id: n - 1 })
    } else {
        tagged(d, n - 1)
    }
}

proof fn lemma_tagged(d: Desugared, n: int)
    requires
        0 <= n <= d.nodes@.len(),
    ensures
        tagged(d, n).map_values(|t: Tagged| t.entry) == d.idents(n),
        forall|i: int|
            0 <= i < tagged(d, n).len() ==> is_name(d, (#[trigger] tagged(d, n)[i]).id)
                && tagged(d, n)[i].id < n && tagged(d, n)[i].entry == d.ident_at(
                tagged(d, n)[i].id,
            ),
        forall|i: int, j: int|
            #![trigger tagged(d, n)[i], tagged(d, n)[j]]
            0 <= i < j < tagged(d, n).len() ==> tagged(d, n)[i].id < tagged(d, n)[j].id,
        forall|id: int|
            0 <= id < n && is_name(d, id) ==> #[trigger] tagged(d, n).contains(
                Tagged { entry: d.ident_at(id), id },
            ),
    decreases n,
{
    if n > 0 {
        lemma_tagged(d, n - 1);
        let before = tagged(d, n - 1);
        let all = tagged(d, n);
        let f = |t: Tagged| t.entry;
        assert(all.map_values(f) =~= d.idents(n));
        assert forall|i: int| 0 <= i < all.len() implies is_name(d, (#[trigger] all[i]).id)
            && all[i].id < n && all[i].entry == d.ident_at(all[i].id) by {
            if i < before.len() {
                assert(all[i] == before[i]);
            }
        }
        assert forall|i: int, j: int|
            #![trigger all[i], all[j]]
            0 <= i < j < all.len() implies all[i].id < all[j].id by {
            assert(all[i] == before[i]);
            if j < before.len() {
                assert(all[j] == before[j]);
            }
        }
        assert forall|id: int| 0 <= id < n && is_name(d, id) implies #[trigger] all.contains(
            Tagged { entry: d.ident_at(id), id },
        ) by {
            let t = Tagged { entry: d.ident_at(id), id };
            if id < n - 1 {
                assert(before.contains(t));
                let k = choose|k: int| 0 <= k < before.len() && before[k] == t;
                assert(all[k] == t);
            } else {
                assert(all[before.len() as int] == t);
            }
        }
    } else {
        assert(tagged(d, n).map_values(|t: Tagged| t.entry) =~= d.idents(n));
    }
}

proof fn lemma_first_under(idents: Seq<IdentModel>, line: u32, col: u32, k: int)
    requires
        0 <= k <= idents.len(),
        forall|i: int| 0 <= i < k ==> !covers((#[trigger] idents[i]).loc, line, col),
        k < idents.len() ==> covers(idents[k].loc, line, col),
    ensures
        ident_under(idents, line, col) == (if k < idents.len() {
            Some(idents[k])
        } else {
            None
        }),
    decreases k,
{
    if k > 0 {
        let rest = idents.skip(1);
        assert forall|i: int| 0 <= i < k - 1 implies !covers(
            (#[trigger] rest[i]).loc,
            line,
            col,
        ) by {
            assert(rest[i] == idents[i + 1]);
        }
        assert(!covers(idents[0].loc, line, col));
        lemma_first_under(rest, line, col, k - 1);
    }
}

/// The first covering entry, or the number of entries.
spec fn first_cover(idents: Seq<IdentModel>, line: u32, col: u32) -> int
    decreases idents.len(),
{
    if idents.len() == 0 || covers(idents[0].loc, line, col) {
        0
    } else {
        1 + first_cover(idents.skip(1), line, col)
    }
}

proof fn lemma_first_cover(idents: Seq<IdentModel>, line: u32, col: u32)
    ensures
        ({
            let k = first_cover(idents, line, col);
            &&& 0 <= k <= idents.len()
            &&& forall|i: int| 0 <= i < k ==> !covers((#[trigger] idents[i]).loc, line, col)
            &&& k < idents.len() ==> covers(idents[k].loc, line, col)
        }),
    decreases idents.len(),
{
    if idents.len() > 0 && !covers(idents[0].loc, line, col) {
        let rest = idents.skip(1);
        lemma_first_cover(rest, line, col);
        let k = first_cover(idents, line, col);
        assert forall|i: int| 0 <= i < k implies !covers((#[trigger] idents[i]).loc, line, col) by {
            if i > 0 {
                assert(rest[i - 1] == idents[i]);
            }
        }
        if k < idents.len() {
            assert(rest[k - 1] == idents[k]);
        }
    }
}

/// The identifier under the cursor is the one that the cursor means.
proof fn lemma_under(d: Desugared, line: u32, col: u32)
    requires
        d.nodes@.len() <= u32::MAX,
    ensures
        forall|id: int| #[trigger]
            means(d, id, line, col) ==> ident_under(
                sorted(d.idents(d.nodes@.len() as int)),
                line,
                col,
            ) == Some(d.ident_at(id)),
        (forall|id: int| !#[trigger] touches(d, id, line, col)) ==> ident_under(
            sorted(d.idents(d.nodes@.len() as int)),
            line,
            col,
        ) is None,
{
    let n = d.nodes@.len() as int;
    let ts = tagged(d, n);
    let f = |t: Tagged| t.entry;
    let rank = |t: Tagged| t.id;
    lemma_tagged(d, n);
    sorted_commutes_with_map(ts, f);
    sorted_is_ranked(ts, rank);
    let out = sorted(ts);
    let idents = sorted(d.idents(n));
    assert(idents == out.map_values(f));
    lemma_first_cover(idents, line, col);
    let k = first_cover(idents, line, col);
    lemma_first_under(idents, line, col, k);
    assert forall|i: int| 0 <= i < out.len() implies is_name(d, (#[trigger] out[i]).id)
        && out[i].entry == d.ident_at(out[i].id) && idents[i] == out[i].entry && covers(
        idents[i].loc,
        line,
        col,
    ) == touches(d, out[i].id, line, col) by {
        sorted_keeps_items(ts, out[i]);
        assert(out.contains(out[i]));
        let m = choose|m: int| 0 <= m < ts.len() && ts[m] == out[i];
        assert(is_name(d, ts[m].id));
    }
    if k < idents.len() {
        assert(touches(d, out[k].id, line, col));
    }
    assert forall|id: int| #[trigger] means(d, id, line, col) implies ident_under(
        idents,
        line,
        col,
    ) == Some(d.ident_at(id)) by {
        let t = Tagged { entry: d.ident_at(id), id };
        assert(ts.contains(t));
        sorted_keeps_items(ts, t);
        let j = choose|j: int| 0 <= j < out.len() && out[j] == t;
        assert(covers(idents[j].loc, line, col));
        assert(k <= j);
        let first = out[k];
        assert(touches(d, first.id, line, col));
        if first.id != id {
            assert(out[k].place().0 == line as int && out[j].place().0 == line as int);
            assert(span_at(d, first.id).start.col == out[k].place().1);
            assert(span_at(d, id).start.col == out[j].place().1);
            assert(k < j);
            assert(before(out[k].place(), out[j].place()) || rank(out[k]) < rank(out[j]));
        }
    }
}

proof fn lemma_leads(d: Desugared, id: int, b: int)
    requires
        is_sound(d),
        is_name(d, id),
        leads_to(d, id, b),
    ensures
        d.ident_at(id).bind_id == Some(b as u32),
        0 <= b < d.binds@.len(),
{
    if !refers_to(d, id, b) {
        lemma_last(d, id, b, d.binds@.len() as int);
        assert(d.binds@.take(d.binds@.len() as int) =~= d.binds@);
    }
}

proof fn lemma_last(d: Desugared, id: int, b: int, n: int)
    requires
        0 <= id <= u32::MAX,
        introduces(d, id, b),
        b < n <= d.binds@.len() <= u32::MAX,
        forall|later: int| b < later ==> !#[trigger] introduces(d, id, later),
    ensures
        last_bind(d.binds@.take(n), id as u32) == Some(b as u32),
    decreases n,
{
    let s = d.binds@.take(n);
    assert(s.drop_last() =~= d.binds@.take(n - 1));
    if b < n - 1 {
        assert(!introduces(d, id, n - 1));
        lemma_last(d, id, b, n - 1);
    }
}

proof fn lemma_no_last(d: Desugared, id: int, n: int)
    requires
        0 <= id <= u32::MAX,
        0 <= n <= d.binds@.len() <= u32::MAX,
        forall|b: int| !#[trigger] introduces(d, id, b),
    ensures
        last_bind(d.binds@.take(n), id as u32) is None,
    decreases n,
{
    if n > 0 {
        let s = d.binds@.take(n);
        assert(s.drop_last() =~= d.binds@.take(n - 1));
        assert(!introduces(d, id, n - 1));
        lemma_no_last(d, id, n - 1);
    }
}

/// Going to the definition: with the cursor on an identifier that leads to binding `b`, the
/// answer is the place of the node that introduces `b`, wherever that stands, and nothing for
/// a binding without such a node.
pub proof fn definition_is_the_place_of_the_binding(
    tokens: Seq<Token>,
    root: Node,
    d: Desugared,
    line: u32,
    col: u32,
    id: int,
    b: int,
)
    requires
        !nothing_to_desugar(root),
        is_sound(d),
        means(d, id, line, col),
        leads_to(d, id, b),
    ensures
        ({
            let doc = document_of(tokens, Ok(root), Some(Ok(d)));
            let found = definition(doc, line, col);
            &&& bind_under(doc, line, col) == Some(b as u32)
            &&& match d.binds@[b].origin {
                BindOrigin::Ast(site) => if site < d.nodes@.len() && d.nodes@[site as int] is Some {
                    found.len() == 4 && shows(found, 0, span_at(d, site as int))
                } else {
                    found.len() == 0
                },
                BindOrigin::Builtin => found.len() == 0,
            }
        }),
{
    lemma_under(d, line, col);
    lemma_leads(d, id, b);
    assert(d.bind_locs()[b] == d.bind_loc(b));
}

/// Where the cursor touches no identifier, or one that neither refers to nor introduces a
/// binding, there is no definition, and there are no references.
pub proof fn nothing_is_found_without_a_binding(
    tokens: Seq<Token>,
    root: Node,
    d: Desugared,
    line: u32,
    col: u32,
)
    requires
        !nothing_to_desugar(root),
        is_sound(d),
        forall|id: int| #[trigger]
            means(d, id, line, col) ==> (id >= d.resolution@.len() || d.resolution@[id] is None) && (
            forall|b: int| !#[trigger] introduces(d, id, b)),
        (forall|id: int| !#[trigger] touches(d, id, line, col)) || (exists|id: int| #[trigger]
            means(d, id, line, col)),
    ensures
        ({
            let doc = document_of(tokens, Ok(root), Some(Ok(d)));
            &&& bind_under(doc, line, col) is None
            &&& definition(doc, line, col).len() == 0
            &&& references(doc, line, col).len() == 0
        }),
{
    lemma_under(d, line, col);
    if exists|id: int| #[trigger] means(d, id, line, col) {
        let id = choose|id: int| #[trigger] means(d, id, line, col);
        lemma_no_last(d, id, d.binds@.len() as int);
        assert(d.binds@.take(d.binds@.len() as int) =~= d.binds@);
    }
}

/// Of the identifiers that a cursor touches, it always means one.
pub proof fn a_touching_cursor_means_one(d: Desugared, line: u32, col: u32, id: int) -> (best: int)
    requires
        touches(d, id, line, col),
    ensures
        means(d, best, line, col),
    decreases span_at(d, id).start.col, id,
{
    if means(d, id, line, col) {
        id
    } else {
        let other = choose|other: int| #[trigger]
            touches(d, other, line, col) && other != id && !(span_at(d, id).start.col < span_at(
                d,
                other,
            ).start.col || (span_at(d, id).start.col == span_at(d, other).start.col && id < other));
        a_touching_cursor_means_one(d, line, col, other)
    }
}

proof fn lemma_refs(d: Desugared, b: u32, n: int) -> (refs: Seq<int>)
    requires
        0 <= n <= d.nodes@.len(),
    ensures
        lists_all(refs, n, |id: int| refers_to(d, id, b as int)),
        refs.len() == d.refs_to(b, n).len(),
        forall|k: int|
            0 <= k < refs.len() ==> d.refs_to(b, n)[k] == d.loc_at(#[trigger] refs[k]),
    decreases n,
{
    let p = |id: int| refers_to(d, id, b as int);
    if n <= 0 {
        let none = Seq::<int>::empty();
        assert(lists_all(none, n, p));
        none
    } else {
        let ix = lemma_refs(d, b, n - 1);
        lemma_lists_next(ix, n - 1, p);
        let all = with_next(ix, n - 1, p);
        assert(p(n - 1) == d.refers(n - 1, b));
        assert forall|k: int| 0 <= k < all.len() implies d.refs_to(b, n)[k] == d.loc_at(
            #[trigger] all[k],
        ) by {
            if k < ix.len() {
                assert(all[k] == ix[k]);
            }
        }
        all
    }
}

proof fn lemma_quads(locs: Seq<Loc>)
    ensures
        quads(locs).len() == 4 * locs.len(),
        forall|k: int|
            #![trigger locs[k]]
            0 <= k < locs.len() ==> quads(locs)[4 * k] == locs[k].line && quads(locs)[4 * k + 1]
                == locs[k].col && quads(locs)[4 * k + 2] == locs[k].end_line && quads(locs)[4 * k
                + 3] == locs[k].end_col,
    decreases locs.len(),
{
    if locs.len() > 0 {
        let init = locs.drop_last();
        lemma_quads(init);
        assert forall|k: int|
            #![trigger locs[k]]
            0 <= k < locs.len() implies quads(locs)[4 * k] == locs[k].line && quads(locs)[4 * k + 1]
            == locs[k].col && quads(locs)[4 * k + 2] == locs[k].end_line && quads(locs)[4 * k + 3]
            == locs[k].end_col by {
            if k < init.len() {
                assert(init[k] == locs[k]);
            }
        }
    }
}

/// Finding references: with the cursor on an identifier that leads to binding `b`, the answer
/// shows the node that introduces `b`, if there is one, and then every identifier that the
/// table of resolved names sends to `b`, each once, in the order of the nodes, and nothing
/// else. They are found from the binding site as from each reference.
pub proof fn references_are_all_that_refer(
    tokens: Seq<Token>,
    root: Node,
    d: Desugared,
    line: u32,
    col: u32,
    id: int,
    b: int,
) -> (refs: Seq<int>)
    requires
        !nothing_to_desugar(root),
        is_sound(d),
        means(d, id, line, col),
        leads_to(d, id, b),
    ensures
        lists_all(refs, d.nodes@.len() as int, |k: int| refers_to(d, k, b)),
        ({
            let found = references(document_of(tokens, Ok(root), Some(Ok(d))), line, col);
            let sited = d.binds@[b].origin matches BindOrigin::Ast(site) && site < d.nodes@.len()
                && d.nodes@[site as int] is Some;
            let first = if sited {
                4int
            } else {
                0
            };
            &&& found.len() == first + 4 * refs.len()
            &&& sited ==> shows(found, 0, span_at(d, d.binds@[b].origin->0 as int))
            &&& forall|k: int|
                0 <= k < refs.len() ==> shows(
                    found,
                    first + 4 * k,
                    span_at(d, #[trigger] refs[k]),
                )
        }),
{
    lemma_under(d, line, col);
    lemma_leads(d, id, b);
    let n = d.nodes@.len() as int;
    let doc = document_of(tokens, Ok(root), Some(Ok(d)));
    let found = references(doc, line, col);
    assert(d.bind_locs()[b] == d.bind_loc(b));
    assert(doc.bind_refs[b] == d.refs_to(b as u32, n));
    let refs = lemma_refs(d, b as u32, n);
    let locs = d.refs_to(b as u32, n);
    lemma_quads(locs);
    let site = opt_quad(d.bind_loc(b));
    assert forall|k: int| 0 <= k < refs.len() implies shows(
        found,
        site.len() + 4 * k,
        span_at(d, #[trigger] refs[k]),
    ) by {
        assert(locs[k] == d.loc_at(refs[k]));
        assert(found[site.len() + 4 * k] == quads(locs)[4 * k]);
        assert(found[site.len() + 4 * k + 1] == quads(locs)[4 * k + 1]);
        assert(found[site.len() + 4 * k + 2] == quads(locs)[4 * k + 2]);
        assert(found[site.len() + 4 * k + 3] == quads(locs)[4 * k + 3]);
        assert(is_name(d, refs[k]));
    }
    refs
}

/// Whether node `id` is an identifier with the given name that introduces a binding of the
/// module's own scope, the first one.
pub open spec fn exports_name(d: Desugared, id: int, name: Seq<char>) -> bool {
    &&& is_name(d, id)
    &&& d.nodes@[id]->0.name->0@ == name
    &&& exists|b: int| #[trigger] introduces(d, id, b) && d.binds@[b].scope == 0
}

/// Whether node `id` comes before node `other`: by the line and column where they start, and
/// by their numbers where they start at the same place.
pub open spec fn stands_before(d: Desugared, id: int, other: int) -> bool {
    let a = span_at(d, id).start;
    let b = span_at(d, other).start;
    ||| editor_line(a.line) < editor_line(b.line)
    ||| editor_line(a.line) == editor_line(b.line) && a.col < b.col
    ||| editor_line(a.line) == editor_line(b.line) && a.col == b.col && id < other
}

proof fn lemma_module_site(idents: Seq<IdentModel>, name: Seq<char>) -> (k: int)
    ensures
        0 <= k <= idents.len(),
        forall|i: int|
            0 <= i < k ==> !((#[trigger] idents[i]).is_module_level && idents[i].name == name),
        k < idents.len() ==> idents[k].is_module_level && idents[k].name == name && module_site(
            idents,
            name,
        ) == Some(idents[k].loc),
        k == idents.len() ==> module_site(idents, name) is None,
    decreases idents.len(),
{
    if idents.len() == 0 || (idents[0].is_module_level && idents[0].name == name) {
        0
    } else {
        let rest = idents.skip(1);
        let k = lemma_module_site(rest, name);
        assert forall|i: int| 0 <= i < k + 1 implies !((#[trigger] idents[i]).is_module_level
            && idents[i].name == name) by {
            if i > 0 {
                assert(rest[i - 1] == idents[i]);
            }
        }
        k + 1
    }
}

/// Looking up a module-level binding: the answer is the place of the first identifier with
/// that name that introduces a binding of the module's scope, and nothing if there is none.
pub proof fn module_binding_is_the_first_export(
    tokens: Seq<Token>,
    root: Node,
    d: Desugared,
    name: Seq<char>,
)
    requires
        !nothing_to_desugar(root),
        is_sound(d),
    ensures
        ({
            let found = opt_quad(
                module_site(document_of(tokens, Ok(root), Some(Ok(d))).idents, name),
            );
            &&& forall|id: int|
                #![trigger exports_name(d, id, name)]
                exports_name(d, id, name) && (forall|other: int| #[trigger]
                    exports_name(d, other, name) && other != id ==> stands_before(d, id, other))
                    ==> found.len() == 4 && shows(found, 0, span_at(d, id))
            &&& (forall|id: int| !#[trigger] exports_name(d, id, name)) ==> found.len() == 0
        }),
{
    let n = d.nodes@.len() as int;
    let ts = tagged(d, n);
    let f = |t: Tagged| t.entry;
    let rank = |t: Tagged| t.id;
    lemma_tagged(d, n);
    sorted_commutes_with_map(ts, f);
    sorted_is_ranked(ts, rank);
    let out = sorted(ts);
    let idents = sorted(d.idents(n));
    assert(idents == out.map_values(f));
    let found = opt_quad(module_site(idents, name));
    let k = lemma_module_site(idents, name);
    assert forall|i: int| 0 <= i < out.len() implies is_name(d, (#[trigger] out[i]).id)
        && out[i].entry == d.ident_at(out[i].id) && idents[i] == out[i].entry && (
    idents[i].is_module_level && idents[i].name == name) == exports_name(d, out[i].id, name) by {
        sorted_keeps_items(ts, out[i]);
        assert(out.contains(out[i]));
        let m = choose|m: int| 0 <= m < ts.len() && ts[m] == out[i];
        let id = ts[m].id;
        assert(is_name(d, id));
        if exports(d.binds@, id as u32) {
            let b = choose|b: int|
                0 <= b < d.binds@.len() && (#[trigger] d.binds@[b]).origin == BindOrigin::Ast(
                    id as u32,
                ) && d.binds@[b].scope == 0;
            assert(introduces(d, id, b));
        }
        if exports_name(d, id, name) {
            let b = choose|b: int| #[trigger] introduces(d, id, b) && d.binds@[b].scope == 0;
            assert(d.binds@[b].origin == BindOrigin::Ast(id as u32));
        }
    }
    if k < idents.len() {
        assert(exports_name(d, out[k].id, name));
    }
    assert forall|id: int|
        #![trigger exports_name(d, id, name)]
        exports_name(d, id, name) && (forall|other: int| #[trigger]
            exports_name(d, other, name) && other != id ==> stands_before(d, id, other)) implies
        found.len() == 4 && shows(found, 0, span_at(d, id)) by {
        let t = Tagged { entry: d.ident_at(id), id };
        assert(ts.contains(t));
        sorted_keeps_items(ts, t);
        let j = choose|j: int| 0 <= j < out.len() && out[j] == t;
        assert(exports_name(d, out[j].id, name));
        assert(k <= j);
        let first = out[k].id;
        assert(exports_name(d, first, name));
        if first != id {
            assert(stands_before(d, id, first));
            assert(before(out[k].place(), out[j].place()) || rank(out[k]) < rank(out[j]));
        }
    }
}

} // verus!
