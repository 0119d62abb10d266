//! Laws of the diagnostics.
use vstd::prelude::*;
use crate::diagnostics::{diag_json, diag_list, lexer_diags, DiagModel};
use crate::document::{diags_of, document_of, wants_desugar};
use crate::json::{Entry, Json};
use crate::laws::{
    has, has_place, lemma_lists_next, lemma_lists_none, lemma_reads_as, lists_all,
    nothing_to_desugar, reads_as, size, with_next,
};
use crate::laws::navigation::{is_name, refers_to};
use crate::scope::Desugared;
use crate::syntax::{loc_of, Node, PassError, Span, Token};

verus! {

/// Whether the object `j` is a diagnostic that says `message` of `span`.
pub open spec fn says(
    j: Json,
    span: Span,
    message: Seq<char>,
    source: Seq<char>,
    severity: Seq<char>,
) -> bool {
    &&& size(j) == 7
    &&& has_place(j, span)
    &&& has(j, "message"@, Json::Text(message))
    &&& has(j, "source"@, Json::Text(source))
    &&& has(j, "severity"@, Json::Text(severity))
}

/// Whether `js` starts with the errors among the lexer's tokens, in order; `ix` are their
/// numbers.
pub open spec fn starts_with_lexer_errors(js: Seq<Json>, tokens: Seq<Token>, ix: Seq<int>) -> bool {
    &&& lists_all(ix, tokens.len() as int, |i: int| tokens[i].kind is Error)
    &&& ix.len() <= js.len()
    &&& forall|k: int|
        0 <= k < ix.len() ==> says(
            js[k],
            tokens[#[trigger] ix[k]].loc,
            tokens[ix[k]].src@,
            "lexer"@,
            "error"@,
        )
}

proof fn lemma_says(d: DiagModel, span: Span)
    requires
        d.loc == loc_of(span),
    ensures
        says(diag_json(d), span, d.message, d.source, d.severity),
{
    let es = diag_json(d)->Object_0;
    assert(es[0].key == "line"@);
    assert(es[1].key == "col"@);
    assert(es[2].key == "endLine"@);
    assert(es[3].key == "endCol"@);
    assert(es[4] == (Entry { key: "message"@, value: Json::Text(d.message) }));
    assert(es[5] == (Entry { key: "source"@, value: Json::Text(d.source) }));
    assert(es[6] == (Entry { key: "severity"@, value: Json::Text(d.severity) }));
}

proof fn lemma_lexer(tokens: Seq<Token>, n: int) -> (ix: Seq<int>)
    requires
        0 <= n <= tokens.len(),
    ensures
        lists_all(ix, n, |i: int| tokens[i].kind is Error),
        ix.len() == lexer_diags(tokens.take(n)).len(),
        forall|k: int|
            0 <= k < ix.len() ==> says(
                diag_json(lexer_diags(tokens.take(n))[k]),
                tokens[#[trigger] ix[k]].loc,
                tokens[ix[k]].src@,
                "lexer"@,
                "error"@,
            ),
    decreases n,
{
    let p = |i: int| tokens[i].kind is Error;
    if n == 0 {
        lemma_lists_none(p);
        Seq::empty()
    } else {
        let ix = lemma_lexer(tokens, n - 1);
        let ds = lexer_diags(tokens.take(n));
        assert(tokens.take(n).drop_last() =~= tokens.take(n - 1));
        lemma_lists_next(ix, n - 1, p);
        let all = with_next(ix, n - 1, p);
        assert forall|k: int| 0 <= k < all.len() implies says(
            diag_json(ds[k]),
            tokens[#[trigger] all[k]].loc,
            tokens[all[k]].src@,
            "lexer"@,
            "error"@,
        ) by {
            if k < ix.len() {
                assert(all[k] == ix[k]);
            } else {
                lemma_says(ds[k], tokens[n - 1].loc);
            }
        }
        all
    }
}

proof fn lemma_document(
    tokens: Seq<Token>,
    parsed: Result<Node, PassError>,
    desugared: Option<Result<Desugared, PassError>>,
) -> (res: (Seq<int>, Seq<Json>))
    ensures
        reads_as(document_of(tokens, parsed, desugared).diagnostics, res.1),
        res.1 == diag_list(diags_of(tokens, parsed, desugared)),
        starts_with_lexer_errors(res.1, tokens, res.0),
        res.0.len() == lexer_diags(tokens).len(),
{
    let ds = diags_of(tokens, parsed, desugared);
    let js = diag_list(ds);
    lemma_reads_as(js);
    let ix = lemma_lexer(tokens, tokens.len() as int);
    assert(tokens.take(tokens.len() as int) =~= tokens);
    assert forall|k: int| 0 <= k < ix.len() implies says(
        js[k],
        tokens[#[trigger] ix[k]].loc,
        tokens[ix[k]].src@,
        "lexer"@,
        "error"@,
    ) by {
        assert(ds[k] == lexer_diags(tokens)[k]);
    }
    (ix, js)
}

/// A source that does not parse: the lexer's errors and then the parser's, nothing else.
pub proof fn parse_error_is_reported(
    tokens: Seq<Token>,
    e: PassError,
    desugared: Option<Result<Desugared, PassError>>,
) -> (res: (Seq<int>, Seq<Json>))
    ensures
        reads_as(document_of(tokens, Err(e), desugared).diagnostics, res.1),
        starts_with_lexer_errors(res.1, tokens, res.0),
        res.1.len() == res.0.len() + 1,
        says(res.1.last(), e.loc, e.message@, "parser"@, "error"@),
{
    let res = lemma_document(tokens, Err(e), desugared);
    lemma_says(diags_of(tokens, Err(e), desugared).last(), e.loc);
    res
}

/// A source is to be desugared exactly if it parses to a module with something in it.
pub proof fn sources_with_content_are_desugared(parsed: Result<Node, PassError>)
    ensures
        wants_desugar(parsed) <==> parsed is Ok && !nothing_to_desugar(parsed->Ok_0),
{
}

/// An empty module: the lexer's errors, nothing else.
pub proof fn empty_module_has_lexer_errors_only(
    tokens: Seq<Token>,
    root: Node,
    desugared: Option<Result<Desugared, PassError>>,
) -> (res: (Seq<int>, Seq<Json>))
    requires
        nothing_to_desugar(root),
    ensures
        reads_as(document_of(tokens, Ok(root), desugared).diagnostics, res.1),
        starts_with_lexer_errors(res.1, tokens, res.0),
        res.1.len() == res.0.len(),
{
    lemma_document(tokens, Ok(root), desugared)
}

/// A source that does not desugar: the lexer's errors and then the desugarer's, nothing else.
pub proof fn desugar_error_is_reported(tokens: Seq<Token>, root: Node, e: PassError) -> (res: (
    Seq<int>,
    Seq<Json>,
))
    requires
        !nothing_to_desugar(root),
    ensures
        reads_as(document_of(tokens, Ok(root), Some(Err(e))).diagnostics, res.1),
        starts_with_lexer_errors(res.1, tokens, res.0),
        res.1.len() == res.0.len() + 1,
        says(res.1.last(), e.loc, e.message@, "desugar"@, "error"@),
{
    let res = lemma_document(tokens, Ok(root), Some(Err(e)));
    lemma_says(diags_of(tokens, Ok(root), Some(Err(e))).last(), e.loc);
    res
}

/// Whether event `e` of scope `s` is a reference that resolves to nothing, from a node that
/// exists.
pub open spec fn is_unresolved(d: Desugared, s: int, e: int) -> bool {
    &&& 0 <= s < d.scopes@.len()
    &&& s < d.scope_events@.len()
    &&& 0 <= e < d.scope_events@[s]@.len()
    &&& d.scope_events@[s]@[e] is Ref
    &&& d.scope_events@[s]@[e]->Ref_0.kind is Unresolved
    &&& event_node(d, s, e) < d.nodes@.len()
    &&& d.nodes@[event_node(d, s, e)] is Some
}

/// The node of event `e` of scope `s`.
pub open spec fn event_node(d: Desugared, s: int, e: int) -> int {
    d.scope_events@[s]@[e]->Ref_0.ast_id as int
}

/// Whether `at` holds exactly the unresolved references, each once, scope by scope.
pub open spec fn lists_unresolved(at: Seq<(int, int)>, d: Desugared) -> bool {
    &&& forall|i: int, j: int|
        #![trigger at[i], at[j]]
        0 <= i < j < at.len() ==> at[i].0 < at[j].0 || (at[i].0 == at[j].0 && at[i].1 < at[j].1)
    &&& forall|i: int|
        0 <= i < at.len() ==> is_unresolved(d, (#[trigger] at[i]).0, at[i].1)
    &&& forall|s: int, e: int| #[trigger] is_unresolved(d, s, e) ==> at.contains((s, e))
}

/// The name that a message gives node `id`: its name, or a question mark if it is no
/// identifier.
pub open spec fn said_name(d: Desugared, id: int) -> Seq<char> {
    if d.nodes@[id]->0.name is Some {
        d.nodes@[id]->0.name->0@
    } else {
        "?"@
    }
}

/// Whether binding `b` is an unused local: an identifier introduces it in a scope that is
/// neither the module's nor an arm's, and no identifier refers to it.
pub open spec fn is_unused(d: Desugared, b: int) -> bool {
    &&& d.binds@[b].origin is Ast
    &&& is_name(d, d.binds@[b].origin->Ast_0 as int)
    &&& d.binds@[b].scope != 0
    &&& d.scopes@[d.binds@[b].scope as int] is Other
    &&& forall|id: int| !#[trigger] refers_to(d, id, b)
}

spec fn upto(at: Seq<(int, int)>, d: Desugared, n: int, m: int) -> bool {
    &&& forall|i: int, j: int|
        #![trigger at[i], at[j]]
        0 <= i < j < at.len() ==> at[i].0 < at[j].0 || (at[i].0 == at[j].0 && at[i].1 < at[j].1)
    &&& forall|i: int|
        0 <= i < at.len() ==> is_unresolved(d, (#[trigger] at[i]).0, at[i].1) && (at[i].0 < n || (
        at[i].0 == n && at[i].1 < m))
    &&& forall|s: int, e: int| #[trigger]
        is_unresolved(d, s, e) && (s < n || (s == n && e < m)) ==> at.contains((s, e))
}

spec fn all_said(at: Seq<(int, int)>, d: Desugared, ds: Seq<DiagModel>) -> bool {
    &&& ds.len() == at.len()
    &&& forall|k: int|
        0 <= k < at.len() ==> says(
            diag_json(ds[k]),
            d.nodes@[event_node(d, (#[trigger] at[k]).0, at[k].1)]->0.loc,
            "unresolved name '"@ + said_name(d, event_node(d, at[k].0, at[k].1)) + "'"@,
            "name_res"@,
            "error"@,
        )
}

proof fn lemma_events(d: Desugared, s: int, m: int, at: Seq<(int, int)>, ds: Seq<DiagModel>) -> (res:
    Seq<(int, int)>)
    requires
        0 <= s < d.scopes@.len(),
        s < d.scope_events@.len(),
        0 <= m <= d.scope_events@[s]@.len(),
        upto(at, d, s, 0),
        all_said(at, d, ds),
    ensures
        upto(res, d, s, m),
        all_said(res, d, ds + d.event_diags(d.scope_events@[s]@.take(m))),
    decreases m,
{
    let events = d.scope_events@[s]@;
    if m == 0 {
        assert(ds + d.event_diags(events.take(0)) =~= ds);
        at
    } else {
        let before = lemma_events(d, s, m - 1, at, ds);
        let was = ds + d.event_diags(events.take(m - 1));
        let e = events[m - 1];
        assert(events.take(m).drop_last() =~= events.take(m - 1));
        assert(events.take(m).last() == e);
        let now = ds + d.event_diags(events.take(m));
        if is_unresolved(d, s, m - 1) {
            let all = before.push((s, m - 1));
            let g = d.event_diag(e)->0;
            assert(now =~= was.push(g));
            lemma_says(g, d.nodes@[event_node(d, s, m - 1)]->0.loc);
            assert forall|k: int| 0 <= k < all.len() implies says(
                diag_json(now[k]),
                d.nodes@[event_node(d, (#[trigger] all[k]).0, all[k].1)]->0.loc,
                "unresolved name '"@ + said_name(d, event_node(d, all[k].0, all[k].1)) + "'"@,
                "name_res"@,
                "error"@,
            ) by {
                if k < before.len() {
                    assert(all[k] == before[k]);
                    assert(now[k] == was[k]);
                }
            }
            assert forall|i: int|
                0 <= i < all.len() implies is_unresolved(d, (#[trigger] all[i]).0, all[i].1) && (
            all[i].0 < s || (all[i].0 == s && all[i].1 < m)) by {
                if i < before.len() {
                    assert(all[i] == before[i]);
                }
            }
            assert forall|i: int, j: int|
                #![trigger all[i], all[j]]
                0 <= i < j < all.len() implies all[i].0 < all[j].0 || (all[i].0 == all[j].0
                && all[i].1 < all[j].1) by {
                assert(all[i] == before[i]);
                if j < before.len() {
                    assert(all[j] == before[j]);
                }
            }
            assert forall|s2: int, e2: int| #[trigger]
                is_unresolved(d, s2, e2) && (s2 < s || (s2 == s && e2 < m)) implies all.contains(
                (s2, e2),
            ) by {
                if s2 == s && e2 == m - 1 {
                    assert(all[before.len() as int] == (s2, e2));
                } else {
                    assert(before.contains((s2, e2)));
                    let k = choose|k: int| 0 <= k < before.len() && before[k] == (s2, e2);
                    assert(all[k] == (s2, e2));
                }
            }
            all
        } else {
            assert(d.event_diag(e) is None);
            assert(now =~= was);
            before
        }
    }
}

proof fn lemma_unresolved(d: Desugared, n: int) -> (at: Seq<(int, int)>)
    requires
        0 <= n <= d.scopes@.len(),
    ensures
        upto(at, d, n, 0),
        all_said(at, d, d.unresolved_diags(n)),
    decreases n,
{
    if n == 0 {
        Seq::empty()
    } else {
        let before = lemma_unresolved(d, n - 1);
        if n - 1 < d.scope_events@.len() {
            let events = d.scope_events@[n - 1]@;
            let at = lemma_events(
                d,
                n - 1,
                events.len() as int,
                before,
                d.unresolved_diags(n - 1),
            );
            assert(events.take(events.len() as int) =~= events);
            at
        } else {
            before
        }
    }
}

proof fn lemma_unused(d: Desugared, n: int) -> (ix: Seq<int>)
    requires
        0 <= n <= d.binds@.len() <= u32::MAX,
    ensures
        lists_all(ix, n, |b: int| is_unused(d, b)),
        ix.len() == d.unused_diags(n).len(),
        forall|k: int|
            0 <= k < ix.len() ==> says(
                diag_json(d.unused_diags(n)[k]),
                d.nodes@[d.binds@[#[trigger] ix[k]].origin->Ast_0 as int]->0.loc,
                "unused binding '"@ + said_name(d, d.binds@[ix[k]].origin->Ast_0 as int) + "'"@,
                "name_res"@,
                "warning"@,
            ),
    decreases n,
{
    let p = |b: int| is_unused(d, b);
    if n == 0 {
        lemma_lists_none(p);
        Seq::empty()
    } else {
        let b = n - 1;
        let ix = lemma_unused(d, b);
        let ds = d.unused_diags(n);
        assert(p(b) == (d.unused_diag(b) is Some)) by {
            let all = d.nodes@.len() as int;
            if d.used(b as u32, all) {
                let id = choose|id: int| 0 <= id < all && #[trigger] d.refers(id, b as u32);
                assert(refers_to(d, id, b));
            }
            if !is_unused(d, b) && (exists|id: int| #[trigger] refers_to(d, id, b)) {
                let id = choose|id: int| #[trigger] refers_to(d, id, b);
                assert(d.refers(id, b as u32));
            }
        }
        lemma_lists_next(ix, b, p);
        let all = with_next(ix, b, p);
        assert forall|k: int| 0 <= k < all.len() implies says(
            diag_json(ds[k]),
            d.nodes@[d.binds@[#[trigger] all[k]].origin->Ast_0 as int]->0.loc,
            "unused binding '"@ + said_name(d, d.binds@[all[k]].origin->Ast_0 as int) + "'"@,
            "name_res"@,
            "warning"@,
        ) by {
            if k < ix.len() {
                assert(all[k] == ix[k]);
            } else {
                lemma_says(ds[k], d.nodes@[d.binds@[b].origin->Ast_0 as int]->0.loc);
            }
        }
        all
    }
}

/// A source that desugars: the lexer's errors, then an error for every reference that resolves
/// to nothing, scope by scope, and then a warning for every unused local; all of them, each
/// once, and nothing else.
pub proof fn all_name_errors_are_reported(tokens: Seq<Token>, root: Node, d: Desugared) -> (res: (
    Seq<int>,
    Seq<(int, int)>,
    Seq<int>,
    Seq<Json>,
))
    requires
        !nothing_to_desugar(root),
        d.binds@.len() <= u32::MAX,
    ensures
        reads_as(document_of(tokens, Ok(root), Some(Ok(d))).diagnostics, res.3),
        res.3.len() == res.0.len() + res.1.len() + res.2.len(),
        starts_with_lexer_errors(res.3, tokens, res.0),
        lists_unresolved(res.1, d),
        forall|k: int|
            0 <= k < res.1.len() ==> says(
                res.3[res.0.len() + k],
                d.nodes@[event_node(d, (#[trigger] res.1[k]).0, res.1[k].1)]->0.loc,
                "unresolved name '"@ + said_name(d, event_node(d, res.1[k].0, res.1[k].1)) + "'"@,
                "name_res"@,
                "error"@,
            ),
        lists_all(res.2, d.binds@.len() as int, |b: int| is_unused(d, b)),
        forall|k: int|
            0 <= k < res.2.len() ==> says(
                res.3[res.0.len() + res.1.len() + k],
                d.nodes@[d.binds@[#[trigger] res.2[k]].origin->Ast_0 as int]->0.loc,
                "unused binding '"@ + said_name(d, d.binds@[res.2[k]].origin->Ast_0 as int)
                    + "'"@,
                "name_res"@,
                "warning"@,
            ),
{
    let (lexed, js) = lemma_document(tokens, Ok(root), Some(Ok(d)));
    let n = d.scopes@.len() as int;
    let at = lemma_unresolved(d, n);
    let ix = lemma_unused(d, d.binds@.len() as int);
    let ds = diags_of(tokens, Ok(root), Some(Ok(d)));
    let un = d.unresolved_diags(n);
    let warn = d.unused_diags(d.binds@.len() as int);
    assert forall|s: int, e: int| #[trigger] is_unresolved(d, s, e) implies at.contains((s, e)) by {
        assert(s < n);
    }
    assert forall|k: int| 0 <= k < at.len() implies says(
        js[lexed.len() + k],
        d.nodes@[event_node(d, (#[trigger] at[k]).0, at[k].1)]->0.loc,
        "unresolved name '"@ + said_name(d, event_node(d, at[k].0, at[k].1)) + "'"@,
        "name_res"@,
        "error"@,
    ) by {
        assert(ds[lexed.len() + k] == un[k]);
    }
    assert forall|k: int| 0 <= k < ix.len() implies says(
        js[lexed.len() + at.len() + k],
        d.nodes@[d.binds@[#[trigger] ix[k]].origin->Ast_0 as int]->0.loc,
        "unused binding '"@ + said_name(d, d.binds@[ix[k]].origin->Ast_0 as int) + "'"@,
        "name_res"@,
        "warning"@,
    ) by {
        assert(ds[lexed.len() + at.len() + k] == warn[k]);
    }
    (lexed, at, ix, js)
}

} // verus!
