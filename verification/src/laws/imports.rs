//! Laws of the import metadata.
use vstd::prelude::*;
use crate::document::document_of;
use crate::imports::{
    import_json, import_list, import_of, imported_name, imported_names, imports_among, imports_text,
    name_json, name_list, NameModel,
};
use crate::json::{Entry, Json};
use crate::laws::{
    editor_line, has, has_place, lemma_lists_next, lemma_lists_none, lemma_reads_as, lists_all,
    reads_as, size, with_next,
};
use crate::scope::Desugared;
use crate::syntax::{loc_of, Node, PassError, Token};

verus! {

/// Whether the record item `item` names what the identifier `who` says: it is that identifier,
/// or an arm with it as its only pattern.
pub open spec fn names(item: Node, who: Node) -> bool {
    &&& who.kind is Ident
    &&& item == who || (item.kind is Arm && item.kind->Arm_lhs.kind is Patterns
        && item.kind->Arm_lhs.kind->Patterns_0@ == seq![who])
}

/// Whether the record item `item` names something.
pub open spec fn names_something(item: Node) -> bool {
    exists|who: Node| #[trigger] names(item, who)
}

/// Whether `expr` binds the items of a record pattern to a call of `import` on the string
/// literal `lit`.
pub open spec fn calls_import(expr: Node, items: Seq<Node>, lit: Node) -> bool {
    &&& expr.kind is Bind
    &&& expr.kind->Bind_lhs.kind is LitRec
    &&& expr.kind->Bind_lhs.kind->LitRec_items@ == items
    &&& expr.kind->Bind_rhs.kind is Apply
    &&& expr.kind->Bind_rhs.kind->func.kind is Ident
    &&& expr.kind->Bind_rhs.kind->func.kind->Ident_0@ == "import"@
    &&& expr.kind->Bind_rhs.kind->args@.len() > 0
    &&& expr.kind->Bind_rhs.kind->args@[0] == lit
    &&& lit.kind is LitStr
}

/// Whether `expr` imports at least one name.
pub open spec fn is_import(expr: Node) -> bool {
    exists|items: Seq<Node>, lit: Node, k: int|
        #![trigger calls_import(expr, items, lit), items[k]]
        calls_import(expr, items, lit) && 0 <= k < items.len() && names_something(items[k])
}

/// Whether `js` tells the names of a record pattern: one object for each item that names
/// something, in order, with the name and its place.
pub open spec fn tells_names(js: Seq<Json>, items: Seq<Node>, which: Seq<int>) -> bool {
    &&& lists_all(which, items.len() as int, |i: int| names_something(items[i]))
    &&& js.len() == which.len()
    &&& forall|k: int, who: Node|
        #![trigger names(items[which[k]], who)]
        0 <= k < js.len() && names(items[which[k]], who) ==> {
            &&& size(js[k]) == 5
            &&& has(js[k], "name"@, Json::Text(who.kind->Ident_0@))
            &&& has_place(js[k], who.loc)
        }
}

/// Whether the object `j` tells the import `expr`: the text and the place of its literal, and
/// its names.
pub open spec fn tells_import(j: Json, expr: Node) -> bool {
    forall|items: Seq<Node>, lit: Node| #[trigger]
        calls_import(expr, items, lit) ==> {
            &&& size(j) == 6
            &&& has(j, "url"@, Json::Text(lit.kind->content@))
            &&& has(j, "urlLine"@, Json::Number(editor_line(lit.loc.start.line) as nat))
            &&& has(j, "urlCol"@, Json::Number(lit.loc.start.col as nat))
            &&& has(j, "urlEndLine"@, Json::Number(editor_line(lit.loc.end.line) as nat))
            &&& has(j, "urlEndCol"@, Json::Number(lit.loc.end.col as nat))
            &&& exists|js: Seq<Json>, which: Seq<int>| #[trigger]
                tells_names(js, items, which) && has(j, "names"@, Json::List(js))
        }
}

proof fn lemma_name(item: Node)
    ensures
        imported_name(item) is Some <==> names_something(item),
        forall|who: Node| #[trigger]
            names(item, who) ==> imported_name(item) is Some && imported_name(item)->0.name
                == who.kind->Ident_0@ && imported_name(item)->0.loc == loc_of(
                who.loc,
            ),
{
    if imported_name(item) is Some {
        if item.kind is Ident {
            assert(names(item, item));
        } else {
            let pats = item.kind->Arm_lhs.kind->Patterns_0@;
            assert(pats =~= seq![pats[0]]);
            assert(names(item, pats[0]));
        }
    }
    assert forall|who: Node| #[trigger] names(item, who) implies imported_name(item) is Some
        && imported_name(item)->0.name == who.kind->Ident_0@ && imported_name(item)->0.loc
        == loc_of(who.loc) by {
        if item != who {
            assert(item.kind->Arm_lhs.kind->Patterns_0@[0] == who);
        }
    }
}

proof fn lemma_names(items: Seq<Node>, n: int) -> (which: Seq<int>)
    requires
        0 <= n <= items.len(),
    ensures
        lists_all(which, n, |i: int| names_something(items[i])),
        which.len() == imported_names(items.take(n)).len(),
        forall|k: int|
            0 <= k < which.len() ==> Some(imported_names(items.take(n))[k]) == imported_name(
                items[#[trigger] which[k]],
            ),
    decreases n,
{
    let p = |i: int| names_something(items[i]);
    if n == 0 {
        lemma_lists_none(p);
        Seq::empty()
    } else {
        let ix = lemma_names(items, n - 1);
        assert(items.take(n).drop_last() =~= items.take(n - 1));
        lemma_name(items[n - 1]);
        lemma_lists_next(ix, n - 1, p);
        let all = with_next(ix, n - 1, p);
        assert forall|k: int| 0 <= k < all.len() implies Some(imported_names(items.take(n))[k])
            == imported_name(items[#[trigger] all[k]]) by {
            if k < ix.len() {
                assert(all[k] == ix[k]);
            }
        }
        all
    }
}

proof fn lemma_name_json(n: NameModel, who: Node)
    requires
        n.name == who.kind->Ident_0@,
        n.loc == loc_of(who.loc),
    ensures
        size(name_json(n)) == 5,
        has(name_json(n), "name"@, Json::Text(who.kind->Ident_0@)),
        has_place(name_json(n), who.loc),
{
    let es = name_json(n)->Object_0;
    assert(es[0] == (Entry { key: "name"@, value: Json::Text(who.kind->Ident_0@) }));
    assert(es[1].key == "line"@);
    assert(es[2].key == "col"@);
    assert(es[3].key == "endLine"@);
    assert(es[4].key == "endCol"@);
}

proof fn lemma_import(expr: Node)
    ensures
        import_of(expr) is Some <==> is_import(expr),
        import_of(expr) is Some ==> tells_import(import_json(import_of(expr)->0), expr),
{
    if is_import(expr) {
        let (items, lit, k) = choose|items: Seq<Node>, lit: Node, k: int|
            #![trigger calls_import(expr, items, lit), items[k]]
            calls_import(expr, items, lit) && 0 <= k < items.len() && names_something(items[k]);
        let which = lemma_names(items, items.len() as int);
        assert(items.take(items.len() as int) =~= items);
        assert((|i: int| names_something(items[i]))(k));
        assert(which.contains(k));
    }
    if let Some(m) = import_of(expr) {
        let j = import_json(m);
        let es = j->Object_0;
        let items = expr.kind->Bind_lhs.kind->LitRec_items@;
        let lit = expr.kind->Bind_rhs.kind->args@[0];
        assert(calls_import(expr, items, lit));
        let which = lemma_names(items, items.len() as int);
        assert(items.take(items.len() as int) =~= items);
        assert(items[which[0]] == items[which[0]]);
        assert((|i: int| names_something(items[i]))(which[0]));
        assert(is_import(expr));
        assert(es[0].key == "url"@);
        assert(es[1].key == "urlLine"@);
        assert(es[2].key == "urlCol"@);
        assert(es[3].key == "urlEndLine"@);
        assert(es[4].key == "urlEndCol"@);
        assert(es[5].key == "names"@);
        let js = name_list(m.names);
        assert(tells_names(js, items, which)) by {
            assert forall|k: int, who: Node|
                #![trigger names(items[which[k]], who)]
                0 <= k < js.len() && names(items[which[k]], who) implies {
                &&& size(js[k]) == 5
                &&& has(js[k], "name"@, Json::Text(who.kind->Ident_0@))
                &&& has_place(js[k], who.loc)
            } by {
                lemma_name(items[which[k]]);
                assert(Some(m.names[k]) == imported_name(items[which[k]]));
                lemma_name_json(m.names[k], who);
            }
        }
        assert(has(j, "names"@, Json::List(js)));
        assert(tells_import(j, expr)) by {
            assert forall|items2: Seq<Node>, lit2: Node| #[trigger]
                calls_import(expr, items2, lit2) implies items2 == items && lit2 == lit by {}
        }
    }
}

proof fn lemma_imports(exprs: Seq<Node>, n: int) -> (ix: Seq<int>)
    requires
        0 <= n <= exprs.len(),
    ensures
        lists_all(ix, n, |i: int| is_import(exprs[i])),
        ix.len() == imports_among(exprs.take(n)).len(),
        forall|k: int|
            0 <= k < ix.len() ==> Some(imports_among(exprs.take(n))[k]) == import_of(
                exprs[#[trigger] ix[k]],
            ),
    decreases n,
{
    let p = |i: int| is_import(exprs[i]);
    if n == 0 {
        lemma_lists_none(p);
        Seq::empty()
    } else {
        let ix = lemma_imports(exprs, n - 1);
        assert(exprs.take(n).drop_last() =~= exprs.take(n - 1));
        lemma_import(exprs[n - 1]);
        lemma_lists_next(ix, n - 1, p);
        let all = with_next(ix, n - 1, p);
        assert forall|k: int| 0 <= k < all.len() implies Some(imports_among(exprs.take(n))[k])
            == import_of(exprs[#[trigger] all[k]]) by {
            if k < ix.len() {
                assert(all[k] == ix[k]);
            }
        }
        all
    }
}

/// A document whose source parses to a module reports the imports of that module, whatever
/// desugaring gave: one object for each expression that imports a name, in order, and no
/// other.
pub proof fn imports_are_those_of_the_source(
    tokens: Seq<Token>,
    root: Node,
    desugared: Option<Result<Desugared, PassError>>,
) -> (res: (Seq<int>, Seq<Json>))
    requires
        root.kind is Module,
    ensures
        lists_all(
            res.0,
            root.kind->exprs@.len() as int,
            |i: int| is_import(root.kind->exprs@[i]),
        ),
        reads_as(imports_text(document_of(tokens, Ok(root), desugared).imports), res.1),
        res.1.len() == res.0.len(),
        forall|k: int|
            0 <= k < res.1.len() ==> tells_import(
                res.1[k],
                root.kind->exprs@[#[trigger] res.0[k]],
            ),
{
    let exprs = root.kind->exprs@;
    let imports = document_of(tokens, Ok(root), desugared).imports;
    let ix = lemma_imports(exprs, exprs.len() as int);
    assert(exprs.take(exprs.len() as int) =~= exprs);
    assert(imports == imports_among(exprs));
    let js = import_list(imports);
    lemma_reads_as(js);
    assert forall|k: int| 0 <= k < js.len() implies tells_import(
        js[k],
        exprs[#[trigger] ix[k]],
    ) by {
        lemma_import(exprs[ix[k]]);
        assert(Some(imports[k]) == import_of(exprs[ix[k]]));
    }
    (ix, js)
}

/// A source that does not parse, or does not parse to a module, imports nothing.
pub proof fn only_modules_import(
    tokens: Seq<Token>,
    parsed: Result<Node, PassError>,
    desugared: Option<Result<Desugared, PassError>>,
)
    requires
        parsed is Err || !(parsed->Ok_0.kind is Module),
    ensures
        reads_as(imports_text(document_of(tokens, parsed, desugared).imports), Seq::empty()),
{
    lemma_reads_as(Seq::empty());
    assert(import_list(document_of(tokens, parsed, desugared).imports) =~= Seq::<Json>::empty());
}

} // verus!
