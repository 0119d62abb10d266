//! A document that is parsed once and queried many times.
use vstd::prelude::*;
use vstd::string::*;
use crate::diagnostics::{
    add_diag, diag_list, lexer_diags, make_lexer_diags, make_pass_diag, pass_diag, DiagModel,
};
use crate::imports::{
    extract_imports, import_views, imports_of, imports_text, write_imports, ImportInfo, ImportModel,
};
use crate::json::{
    items_of, json_reads_back, json_text, lemma_items_concat, read_json, write_json, Json, Value,
};
use crate::scope::{
    exports, ident_views, last_bind, lemma_last_bind, loc_lists, BindOrigin, Desugared, IdentEntry,
    IdentModel, ScopeEvent, MODULE_SCOPE,
};
use crate::sort::{
    in_order, sort_by_place, sorted, sorted_commutes_with_map, sorted_is_a_permutation,
    sorted_is_in_order,
};
use crate::syntax::{Loc, Node, NodeKind, PassError, Token};
use crate::text::same_text;
use crate::tokens::{
    delta_encode, deltas, fits, marks, raw, try_collect_tokens, RawToken,
};

verus! {

/// A parsed document: everything that the editor asks for, worked out in advance.
#[derive(Debug)]
pub struct ParsedDocument {
    semantic_tokens: Vec<u32>,
    diagnostics: String,
    /// For each binding the location of its binding site.
    bind_locs: Vec<Option<Loc>>,
    /// For each binding the locations of the references to it.
    bind_refs: Vec<Vec<Loc>>,
    /// The identifiers, in document order.
    idents: Vec<IdentEntry>,
    imports: Vec<ImportInfo>,
}

/// A parsed document, over mathematical sequences.
pub struct DocModel {
    pub semantic_tokens: Seq<u32>,
    pub diagnostics: Seq<char>,
    pub bind_locs: Seq<Option<Loc>>,
    pub bind_refs: Seq<Seq<Loc>>,
    pub idents: Seq<IdentModel>,
    pub imports: Seq<ImportModel>,
}

impl View for ParsedDocument {
    type V = DocModel;

    closed spec fn view(&self) -> DocModel {
        DocModel {
            semantic_tokens: self.semantic_tokens@,
            diagnostics: self.diagnostics@,
            bind_locs: self.bind_locs@,
            bind_refs: loc_lists(self.bind_refs@),
            idents: ident_views(self.idents@),
            imports: import_views(self.imports@),
        }
    }
}

/// Whether the bindings that the identifiers name are in the tables.
pub open spec fn bindings_known(doc: DocModel) -> bool {
    &&& doc.bind_locs.len() == doc.bind_refs.len()
    &&& forall|i: int|
        0 <= i < doc.idents.len() ==> ((#[trigger] doc.idents[i]).bind_id matches Some(b) ==> b
            < doc.bind_locs.len())
}

/// Whether `root` is a module without expressions.
pub open spec fn is_empty_module(root: Node) -> bool {
    match root.kind {
        NodeKind::Module { exprs } => exprs@.len() == 0,
        _ => false,
    }
}

/// Whether a parsed source has to be desugared: it parses, and is not empty.
pub open spec fn wants_desugar(parsed: Result<Node, PassError>) -> bool {
    match parsed {
        Ok(root) => !is_empty_module(root),
        Err(_) => false,
    }
}

/// The semantic tokens of the tree under `root`, in the editor's wire format.
pub open spec fn tokens_of(root: Node) -> Seq<u32> {
    deltas(sorted(raw(marks(root))))
}

/// The JSON text for diagnostics.
pub open spec fn diags_text(diags: Seq<DiagModel>) -> Seq<char> {
    json_text(Json::List(diag_list(diags)))
}

/// A document without resolved names.
pub open spec fn plain_doc(
    diags: Seq<DiagModel>,
    semantic_tokens: Seq<u32>,
    imports: Seq<ImportModel>,
) -> DocModel {
    DocModel {
        semantic_tokens,
        diagnostics: diags_text(diags),
        bind_locs: Seq::empty(),
        bind_refs: Seq::empty(),
        idents: Seq::empty(),
        imports,
    }
}

/// The diagnostics for the front end's results, in the order of the passes: lexer errors, then
/// the error that parsing or desugaring stopped with, or else unresolved names and unused
/// bindings.
pub open spec fn diags_of(
    tokens: Seq<Token>,
    parsed: Result<Node, PassError>,
    desugared: Option<Result<Desugared, PassError>>,
) -> Seq<DiagModel> {
    let lexed = lexer_diags(tokens);
    match parsed {
        Err(e) => lexed.push(pass_diag(e, "parser"@)),
        Ok(root) => if is_empty_module(root) {
            lexed
        } else {
            match desugared->0 {
                Err(e) => lexed.push(pass_diag(e, "desugar"@)),
                Ok(d) => lexed + (d.unresolved_diags(d.scopes@.len() as int) + d.unused_diags(
                    d.binds@.len() as int,
                )),
            }
        },
    }
}

/// The document that the front end's results make. `tokens` are the lexer's tokens,
/// `parsed` is what parsing gave, and `desugared` what desugaring gave, where it is wanted.
pub open spec fn document_of(
    tokens: Seq<Token>,
    parsed: Result<Node, PassError>,
    desugared: Option<Result<Desugared, PassError>>,
) -> DocModel {
    let diags = diags_of(tokens, parsed, desugared);
    match parsed {
        Err(e) => plain_doc(diags, Seq::empty(), Seq::empty()),
        Ok(root) => if is_empty_module(root) {
            plain_doc(diags, tokens_of(root), imports_of(root))
        } else {
            match desugared->0 {
                Err(e) => plain_doc(diags, tokens_of(root), imports_of(root)),
                Ok(d) => DocModel {
                    semantic_tokens: tokens_of(root),
                    diagnostics: diags_text(diags),
                    bind_locs: d.bind_locs(),
                    bind_refs: d.bind_refs(d.nodes@.len() as int),
                    idents: sorted(d.idents(d.nodes@.len() as int)),
                    imports: imports_of(root),
                },
            }
        },
    }
}

/// Whether the front end's results make a document: no coloured span runs backwards,
/// desugaring was done where it is wanted, and its parts fit together.
pub open spec fn makes_document(
    parsed: Result<Node, PassError>,
    desugared: Option<Result<Desugared, PassError>>,
) -> bool {
    match parsed {
        Err(_) => true,
        Ok(root) => {
            &&& fits(marks(root))
            &&& !is_empty_module(root) ==> match desugared {
                Some(Ok(d)) => d.fits(),
                Some(Err(_)) => true,
                None => false,
            }
        },
    }
}

/// Whether a parsed source has to be desugared.
pub fn needs_desugar(parsed: &Result<Node, PassError>) -> (yes: bool)
    ensures
        yes == wants_desugar(*parsed),
{
    match parsed {
        Ok(root) => !empty_module(root),
        Err(_) => false,
    }
}

fn empty_module(root: &Node) -> (yes: bool)
    ensures
        yes == is_empty_module(*root),
{
    match &root.kind {
        NodeKind::Module { exprs } => exprs.len() == 0,
        _ => false,
    }
}

/// The identifier that stands at a cursor position: the first in document order that does.
pub open spec fn ident_under(idents: Seq<IdentModel>, line: u32, col: u32) -> Option<IdentModel>
    decreases idents.len(),
{
    if idents.len() == 0 {
        None
    } else if covers(idents[0].loc, line, col) {
        Some(idents[0])
    } else {
        ident_under(idents.skip(1), line, col)
    }
}

/// Whether the identifier at `loc` stands at a cursor position. The end column is outside.
pub open spec fn covers(loc: Loc, line: u32, col: u32) -> bool {
    loc.line == line && loc.col <= col && col < loc.end_col
}

/// The binding of the identifier at a cursor position.
pub open spec fn bind_under(doc: DocModel, line: u32, col: u32) -> Option<u32> {
    match ident_under(doc.idents, line, col) {
        Some(entry) => entry.bind_id,
        None => None,
    }
}

/// The four numbers of a location.
pub open spec fn quad(loc: Loc) -> Seq<u32> {
    seq![loc.line, loc.col, loc.end_line, loc.end_col]
}

/// The numbers of several locations, one after the other.
pub open spec fn quads(locs: Seq<Loc>) -> Seq<u32>
    decreases locs.len(),
{
    if locs.len() == 0 {
        Seq::empty()
    } else {
        quads(locs.drop_last()) + quad(locs.last())
    }
}

/// The numbers of a location, if there is one.
pub open spec fn opt_quad(loc: Option<Loc>) -> Seq<u32> {
    match loc {
        Some(loc) => quad(loc),
        None => Seq::empty(),
    }
}

/// The definition of the identifier at a cursor position.
pub open spec fn definition(doc: DocModel, line: u32, col: u32) -> Seq<u32> {
    match bind_under(doc, line, col) {
        Some(b) => opt_quad(doc.bind_locs[b as int]),
        None => Seq::empty(),
    }
}

/// The binding site of the identifier at a cursor position, then all references to it.
pub open spec fn references(doc: DocModel, line: u32, col: u32) -> Seq<u32> {
    match bind_under(doc, line, col) {
        Some(b) => opt_quad(doc.bind_locs[b as int]) + quads(doc.bind_refs[b as int]),
        None => Seq::empty(),
    }
}

/// The first identifier, in document order, that introduces a binding of the module with
/// the given name.
pub open spec fn module_site(idents: Seq<IdentModel>, name: Seq<char>) -> Option<Loc>
    decreases idents.len(),
{
    if idents.len() == 0 {
        None
    } else if idents[0].is_module_level && idents[0].name == name {
        Some(idents[0].loc)
    } else {
        module_site(idents.skip(1), name)
    }
}

fn write_quad(loc: &Loc) -> (out: Vec<u32>)
    ensures
        out@ == quad(*loc),
{
    let mut out: Vec<u32> = Vec::new();
    push_quad(&mut out, loc);
    assert(out@ =~= quad(*loc));
    out
}

fn push_quad(out: &mut Vec<u32>, loc: &Loc)
    ensures
        final(out)@ == old(out)@ + quad(*loc),
{
    let ghost was = out@;
    out.push(loc.line);
    out.push(loc.col);
    out.push(loc.end_line);
    out.push(loc.end_col);
    assert(out@ =~= was + quad(*loc));
}

impl ParsedDocument {
    #[verifier::type_invariant]
    spec fn known(self) -> bool {
        bindings_known(self@)
    }

    fn plain(
        diags: Vec<Value>,
        semantic_tokens: Vec<u32>,
        imports: Vec<ImportInfo>,
        Ghost(models): Ghost<Seq<DiagModel>>,
    ) -> (doc: ParsedDocument)
        requires
            items_of(diags@) == diag_list(models),
        ensures
            doc@ == plain_doc(models, semantic_tokens@, import_views(imports@)),
    {
        let diagnostics = write_json(&Value::List(diags));
        let bind_locs: Vec<Option<Loc>> = Vec::new();
        let bind_refs: Vec<Vec<Loc>> = Vec::new();
        let idents: Vec<IdentEntry> = Vec::new();
        assert(loc_lists(bind_refs@) =~= Seq::<Seq<Loc>>::empty());
        assert(ident_views(idents@) =~= Seq::<IdentModel>::empty());
        ParsedDocument { semantic_tokens, diagnostics, bind_locs, bind_refs, idents, imports }
    }

    /// Makes the document from the front end's results, or reports that they do not make
    /// one.
    pub fn try_new(
        tokens: &Vec<Token>,
        parsed: &Result<Node, PassError>,
        desugared: &Option<Result<Desugared, PassError>>,
    ) -> (doc: Option<ParsedDocument>)
        ensures
            doc is Some <==> makes_document(*parsed, *desugared),
            doc matches Some(doc) ==> doc@ == document_of(tokens@, *parsed, *desugared),
    {
        let mut diags = make_lexer_diags(tokens);
        let ghost lexed = lexer_diags(tokens@);
        let ghost all = diags_of(tokens@, *parsed, *desugared);
        let root = match parsed {
            Ok(root) => root,
            Err(e) => {
                let diag = make_pass_diag(e, "parser");
                add_diag(&mut diags, diag, Ghost(lexed), Ghost(pass_diag(*e, "parser"@)));
                let imports: Vec<ImportInfo> = Vec::new();
                assert(import_views(imports@) =~= Seq::<ImportModel>::empty());
                return Some(ParsedDocument::plain(diags, Vec::new(), imports, Ghost(all)));
            },
        };
        let imports = extract_imports(root);
        let mut raw_tokens: Vec<RawToken> = Vec::new();
        if !try_collect_tokens(root, &mut raw_tokens) {
            return None;
        }
        assert(raw_tokens@ =~= raw(marks(*root)));
        let semantic_tokens = delta_encode(raw_tokens);
        if empty_module(root) {
            return Some(ParsedDocument::plain(diags, semantic_tokens, imports, Ghost(all)));
        }
        let d = match desugared {
            Some(Ok(d)) => d,
            Some(Err(e)) => {
                let diag = make_pass_diag(e, "desugar");
                add_diag(&mut diags, diag, Ghost(lexed), Ghost(pass_diag(*e, "desugar"@)));
                return Some(ParsedDocument::plain(diags, semantic_tokens, imports, Ghost(all)));
            },
            None => return None,
        };
        let analysis = match d.try_analyse() {
            Some(a) => a,
            None => return None,
        };
        let ghost n = d.nodes@.len() as int;
        let ghost found = analysis.idents@;
        let mut idents = analysis.idents;
        sort_by_place(&mut idents);
        let mut rest = analysis.diags;
        proof {
            lemma_items_concat(diags@, rest@);
            let names = d.unresolved_diags(d.scopes@.len() as int) + d.unused_diags(
                d.binds@.len() as int,
            );
            assert(diag_list(lexed) + diag_list(names) =~= diag_list(lexed + names));
        }
        diags.append(&mut rest);
        proof {
            sorted_commutes_with_map(found, |e: IdentEntry| e@);
            lemma_idents_known(*d);
        }
        let diagnostics = write_json(&Value::List(diags));
        Some(
            ParsedDocument {
                semantic_tokens,
                diagnostics,
                bind_locs: analysis.bind_locs,
                bind_refs: analysis.bind_refs,
                idents,
                imports,
            },
        )
    }

    /// Makes the document from the front end's results: the lexer's tokens, what parsing
    /// gave and, where it is wanted, what desugaring gave.
    pub fn new(
        tokens: &Vec<Token>,
        parsed: &Result<Node, PassError>,
        desugared: &Option<Result<Desugared, PassError>>,
    ) -> (doc: ParsedDocument)
        requires
            makes_document(*parsed, *desugared),
        ensures
            doc@ == document_of(tokens@, *parsed, *desugared),
    {
        ParsedDocument::try_new(tokens, parsed, desugared).unwrap()
    }

    /// The semantic tokens, in the editor's wire format.
    pub fn get_semantic_tokens(&self) -> (tokens: Vec<u32>)
        ensures
            tokens@ == self@.semantic_tokens,
    {
        let tokens = self.semantic_tokens.clone();
        assert(tokens@ =~= self.semantic_tokens@);
        tokens
    }

    /// The diagnostics, as a JSON array.
    pub fn get_diagnostics(&self) -> (json: String)
        ensures
            json@ == self@.diagnostics,
    {
        self.diagnostics.clone()
    }

    /// The binding of the identifier at a cursor position.
    pub fn find_bind_at(&self, line: u32, col: u32) -> (b: Option<u32>)
        ensures
            b == bind_under(self@, line, col),
    {
        let ghost all = self@.idents;
        assert(all.skip(0) =~= all);
        for i in 0..self.idents.len()
            invariant
                all == ident_views(self.idents@),
                ident_under(all.skip(i as int), line, col) == ident_under(all, line, col),
        {
            let entry = &self.idents[i];
            assert(all[i as int] == entry@);
            assert(all.skip(i as int)[0] == all[i as int]);
            assert(all.skip(i as int).skip(1) =~= all.skip(i + 1));
            if entry.loc.line == line && entry.loc.col <= col && col < entry.loc.end_col {
                return entry.bind_id;
            }
        }
        None
    }

    /// The definition of the identifier at a cursor position: line, column, end line and end
    /// column of its binding site, or nothing.
    pub fn get_definition(&self, line: u32, col: u32) -> (found: Vec<u32>)
        ensures
            found@ == definition(self@, line, col),
    {
        proof {
            use_type_invariant(self);
            lemma_bind_under_known(self@, line, col);
        }
        if let Some(b) = self.find_bind_at(line, col) {
            if let Some(loc) = &self.bind_locs[b as usize] {
                return write_quad(loc);
            }
        }
        let nothing: Vec<u32> = Vec::new();
        assert(nothing@ =~= definition(self@, line, col));
        nothing
    }

    /// The imports, as a JSON array.
    pub fn get_imports(&self) -> (json: String)
        ensures
            json@ == imports_text(self@.imports),
    {
        write_imports(&self.imports)
    }

    /// The binding site of the module-level binding with the given name, as `get_definition`
    /// gives it, or nothing. This is where a name that another module imports is exported.
    pub fn get_module_binding(&self, name: &str) -> (found: Vec<u32>)
        ensures
            found@ == opt_quad(module_site(self@.idents, name@)),
    {
        let ghost all = self@.idents;
        assert(all.skip(0) =~= all);
        for i in 0..self.idents.len()
            invariant
                all == ident_views(self.idents@),
                module_site(all.skip(i as int), name@) == module_site(all, name@),
        {
            let entry = &self.idents[i];
            assert(all[i as int] == entry@);
            assert(all.skip(i as int)[0] == all[i as int]);
            assert(all.skip(i as int).skip(1) =~= all.skip(i + 1));
            if entry.is_module_level && same_text(entry.name.as_str(), name) {
                return write_quad(&entry.loc);
            }
        }
        let nothing: Vec<u32> = Vec::new();
        assert(nothing@ =~= opt_quad(module_site(all, name@)));
        nothing
    }

    /// All references to the identifier at a cursor position, four numbers for each, the
    /// binding site first.
    pub fn get_references(&self, line: u32, col: u32) -> (found: Vec<u32>)
        ensures
            found@ == references(self@, line, col),
    {
        proof {
            use_type_invariant(self);
            lemma_bind_under_known(self@, line, col);
        }
        let mut found: Vec<u32> = Vec::new();
        if let Some(b) = self.find_bind_at(line, col) {
            assert(loc_lists(self.bind_refs@)[b as int] == self.bind_refs@[b as int]@);
            if let Some(loc) = &self.bind_locs[b as usize] {
                push_quad(&mut found, loc);
            }
            let ghost first = opt_quad(self.bind_locs@[b as int]);
            assert(found@ =~= first);
            let refs = &self.bind_refs[b as usize];
            for i in 0..refs.len()
                invariant
                    found@ =~= first + quads(refs@.take(i as int)),
            {
                proof {
                    assert(refs@.take(i + 1).drop_last() =~= refs@.take(i as int));
                }
                push_quad(&mut found, &refs[i]);
            }
            assert(refs@.take(refs.len() as int) =~= refs@);
        } else {
            assert(found@ =~= references(self@, line, col));
        }
        found
    }
}

proof fn lemma_bind_under_known(doc: DocModel, line: u32, col: u32)
    requires
        bindings_known(doc),
    ensures
        bind_under(doc, line, col) matches Some(b) ==> b < doc.bind_locs.len(),
{
    lemma_ident_under(doc.idents, line, col);
}

/// The identifier under a cursor is one of the identifiers, and covers the cursor.
proof fn lemma_ident_under(idents: Seq<IdentModel>, line: u32, col: u32) -> (i: int)
    ensures
        ident_under(idents, line, col) matches Some(e) ==> 0 <= i < idents.len() && idents[i] == e
            && covers(e.loc, line, col),
    decreases idents.len(),
{
    if idents.len() == 0 || covers(idents[0].loc, line, col) {
        0
    } else {
        let i = lemma_ident_under(idents.skip(1), line, col);
        i + 1
    }
}

proof fn lemma_ident_source(d: Desugared, n: int, i: int) -> (id: int)
    requires
        0 <= n <= d.nodes@.len(),
        0 <= i < d.idents(n).len(),
    ensures
        0 <= id < n,
        d.name_at(id) is Some,
        d.idents(n)[i] == d.ident_at(id),
    decreases n,
{
    if d.name_at(n - 1) is Some && i == d.idents(n - 1).len() {
        n - 1
    } else {
        lemma_ident_source(d, n - 1, i)
    }
}

proof fn lemma_idents_known(d: Desugared)
    requires
        d.fits(),
    ensures
        forall|i: int|
            0 <= i < sorted(d.idents(d.nodes@.len() as int)).len() ==> ((#[trigger] sorted(
                d.idents(d.nodes@.len() as int),
            )[i]).bind_id matches Some(b) ==> b < d.binds@.len()),
{
    let n = d.nodes@.len() as int;
    let found = d.idents(n);
    assert forall|i: int| 0 <= i < sorted(found).len() implies ((#[trigger] sorted(
        found,
    )[i]).bind_id matches Some(b) ==> b < d.binds@.len()) by {
        let k = lemma_sorted_source(found, i);
        let id = lemma_ident_source(d, n, k);
        if let Some(b) = d.resolved(id) {
            assert(d.refers(id, b));
        } else {
            lemma_last_bind(d.binds@, id as u32);
        }
    }
}

proof fn lemma_sorted_source(s: Seq<IdentModel>, i: int) -> (k: int)
    requires
        0 <= i < sorted(s).len(),
    ensures
        0 <= k < s.len(),
        s[k] == sorted(s)[i],
{
    broadcast use vstd::seq_lib::group_to_multiset_ensures;

    sorted_is_a_permutation(s);
    let e = sorted(s)[i];
    assert(sorted(s).contains(e));
    assert(sorted(s).to_multiset().contains(e));
    assert(s.contains(e));
    choose|k: int| 0 <= k < s.len() && s[k] == e
}

/// The diagnostics of a document are JSON, and read back as one object for each diagnostic, in
/// order, with its place and its message.
pub proof fn diagnostics_read_back(
    tokens: Seq<Token>,
    parsed: Result<Node, PassError>,
    desugared: Option<Result<Desugared, PassError>>,
)
    ensures
        read_json(document_of(tokens, parsed, desugared).diagnostics) == Some(
            (
                Json::List(diag_list(diags_of(tokens, parsed, desugared))),
                Seq::<char>::empty(),
            ),
        ),
{
    let none = Seq::<char>::empty();
    let text = document_of(tokens, parsed, desugared).diagnostics;
    json_reads_back(Json::List(diag_list(diags_of(tokens, parsed, desugared))), none);
    assert(text + none =~= text);
}

/// Whether a diagnostic comes from the pass that stopped, if one did.
pub open spec fn is_pass_error(d: DiagModel) -> bool {
    d.source == "parser"@ || d.source == "desugar"@
}

/// Whether all diagnostics come from the pass `source`.
spec fn all_from(diags: Seq<DiagModel>, source: Seq<char>) -> bool {
    forall|i: int| 0 <= i < diags.len() ==> (#[trigger] diags[i]).source == source
}

proof fn lemma_lexer_sources(tokens: Seq<Token>)
    ensures
        all_from(lexer_diags(tokens), "lexer"@),
    decreases tokens.len(),
{
    if tokens.len() > 0 {
        lemma_lexer_sources(tokens.drop_last());
    }
}

proof fn lemma_event_sources(d: Desugared, events: Seq<ScopeEvent>)
    ensures
        all_from(d.event_diags(events), "name_res"@),
    decreases events.len(),
{
    if events.len() > 0 {
        lemma_event_sources(d, events.drop_last());
    }
}

proof fn lemma_unresolved_sources(d: Desugared, n: int)
    ensures
        all_from(d.unresolved_diags(n), "name_res"@),
    decreases n,
{
    if n > 0 {
        lemma_unresolved_sources(d, n - 1);
        if n - 1 < d.scope_events@.len() {
            lemma_event_sources(d, d.scope_events@[n - 1]@);
        }
    }
}

proof fn lemma_unused_sources(d: Desugared, n: int)
    ensures
        all_from(d.unused_diags(n), "name_res"@),
    decreases n,
{
    if n > 0 {
        lemma_unused_sources(d, n - 1);
    }
}

/// Every diagnostic names the pass it comes from. At most one comes from a pass that stopped,
/// the parser or the desugarer, and it is the last one.
pub proof fn diagnostics_name_their_pass(
    tokens: Seq<Token>,
    parsed: Result<Node, PassError>,
    desugared: Option<Result<Desugared, PassError>>,
    i: int,
)
    requires
        0 <= i < diags_of(tokens, parsed, desugared).len(),
    ensures
        ({
            let d = diags_of(tokens, parsed, desugared)[i];
            &&& d.source == "lexer"@ || d.source == "name_res"@ || is_pass_error(d)
            &&& is_pass_error(d) ==> i == diags_of(tokens, parsed, desugared).len() - 1
        }),
{
    reveal_strlit("lexer");
    reveal_strlit("parser");
    reveal_strlit("desugar");
    reveal_strlit("name_res");
    lemma_lexer_sources(tokens);
    assert("lexer"@[0] != "parser"@[0] && "lexer"@[0] != "desugar"@[0]);
    assert("name_res"@[0] != "parser"@[0] && "name_res"@[0] != "desugar"@[0]);
    if wants_desugar(parsed) {
        if let Ok(d) = desugared->0 {
            lemma_unresolved_sources(d, d.scopes@.len() as int);
            lemma_unused_sources(d, d.binds@.len() as int);
        }
    }
}

/// The identifiers of a document are in document order.
pub proof fn identifiers_are_in_document_order(
    tokens: Seq<Token>,
    parsed: Result<Node, PassError>,
    desugared: Option<Result<Desugared, PassError>>,
)
    requires
        makes_document(parsed, desugared),
    ensures
        in_order(document_of(tokens, parsed, desugared).idents),
{
    if wants_desugar(parsed) {
        if let Ok(d) = desugared->0 {
            sorted_is_in_order(d.idents(d.nodes@.len() as int));
        }
    }
}

/// The references to an identifier start with its definition, where that has a place in the
/// source: the first four numbers are the binding site.
pub proof fn references_start_with_the_definition(doc: DocModel, line: u32, col: u32)
    requires
        definition(doc, line, col).len() > 0,
    ensures
        references(doc, line, col).len() >= 4,
        references(doc, line, col).take(4) == definition(doc, line, col),
{
    assert(references(doc, line, col).take(4) =~= definition(doc, line, col));
}

proof fn lemma_quads_len(locs: Seq<Loc>)
    ensures
        quads(locs).len() == 4 * locs.len(),
    decreases locs.len(),
{
    if locs.len() > 0 {
        lemma_quads_len(locs.drop_last());
    }
}

/// References come as whole locations of four numbers each: the binding site, if it has a
/// place in the source, and one for each reference.
pub proof fn references_are_whole_locations(doc: DocModel, line: u32, col: u32)
    ensures
        references(doc, line, col).len() % 4 == 0,
        bind_under(doc, line, col) matches Some(b) ==> references(doc, line, col).len() == 4 * (
        doc.bind_refs[b as int].len() + (if doc.bind_locs[b as int] is Some {
            1int
        } else {
            0
        })),
{
    if let Some(b) = bind_under(doc, line, col) {
        lemma_quads_len(doc.bind_refs[b as int]);
    }
}

/// Whether the location `loc` is listed in `numbers`, four numbers to a location.
pub open spec fn lists(numbers: Seq<u32>, loc: Loc) -> bool {
    exists|k: int|
        0 <= k && 4 * k + 4 <= numbers.len() && #[trigger] numbers.subrange(4 * k, 4 * k + 4)
            == quad(loc)
}

proof fn lemma_quads_list(locs: Seq<Loc>, i: int)
    requires
        0 <= i < locs.len(),
    ensures
        quads(locs).subrange(4 * i, 4 * i + 4) == quad(locs[i]),
    decreases locs.len(),
{
    let init = locs.drop_last();
    lemma_quads_len(locs);
    lemma_quads_len(init);
    if i < init.len() {
        lemma_quads_list(init, i);
        assert(quads(locs).subrange(4 * i, 4 * i + 4) =~= quads(init).subrange(4 * i, 4 * i + 4));
    } else {
        assert(quads(locs).subrange(4 * i, 4 * i + 4) =~= quad(locs[i]));
    }
}

proof fn lemma_refs_hold(d: Desugared, b: u32, n: int, id: int) -> (i: int)
    requires
        0 <= id < n,
        d.refers(id, b),
    ensures
        0 <= i < d.refs_to(b, n).len(),
        d.refs_to(b, n)[i] == d.loc_at(id),
    decreases n,
{
    if id == n - 1 {
        d.refs_to(b, n - 1).len() as int
    } else {
        lemma_refs_hold(d, b, n - 1, id)
    }
}

/// The identifier under the cursor is itself among the references that are found for it,
/// be it a reference or the binding site.
pub proof fn references_hold_the_identifier_itself(
    tokens: Seq<Token>,
    parsed: Result<Node, PassError>,
    desugared: Option<Result<Desugared, PassError>>,
    line: u32,
    col: u32,
)
    requires
        makes_document(parsed, desugared),
    ensures
        ({
            let doc = document_of(tokens, parsed, desugared);
            ident_under(doc.idents, line, col) matches Some(e) ==> e.bind_id is Some ==> lists(
                references(doc, line, col),
                e.loc,
            )
        }),
{
    let doc = document_of(tokens, parsed, desugared);
    let i = lemma_ident_under(doc.idents, line, col);
    if let Some(e) = ident_under(doc.idents, line, col) {
        if let Some(b) = e.bind_id {
            let d = desugared->0->Ok_0;
            let n = d.nodes@.len() as int;
            let k = lemma_sorted_source(d.idents(n), i);
            let id = lemma_ident_source(d, n, k);
            let found = references(doc, line, col);
            let site = opt_quad(d.bind_loc(b as int));
            lemma_idents_known(d);
            assert(doc.bind_locs[b as int] == d.bind_loc(b as int));
            if d.resolved(id) is Some {
                assert(d.refers(id, b));
                let r = lemma_refs_hold(d, b, n, id);
                let refs = d.refs_to(b, n);
                assert(doc.bind_refs[b as int] == refs);
                lemma_quads_list(refs, r);
                lemma_quads_len(refs);
                let at = if d.bind_loc(b as int) is Some {
                    r + 1
                } else {
                    r
                };
                assert(found.subrange(4 * at, 4 * at + 4) =~= quads(refs).subrange(
                    4 * r,
                    4 * r + 4,
                ));
            } else {
                lemma_last_bind(d.binds@, id as u32);
                assert(d.bind_loc(b as int) == Some(e.loc));
                let first: int = 0;
                assert(found.subrange(4 * first, 4 * first + 4) =~= quad(e.loc));
            }
        }
    }
}

/// A binding site that refers to nothing else is its own definition.
pub proof fn binding_site_defines_itself(
    tokens: Seq<Token>,
    root: Node,
    d: Desugared,
    line: u32,
    col: u32,
    id: int,
)
    requires
        makes_document(Ok(root), Some(Ok(d))),
        !is_empty_module(root),
        0 <= id < d.nodes@.len(),
        d.name_at(id) is Some,
        d.resolved(id) is None,
        last_bind(d.binds@, id as u32) is Some,
        ident_under(document_of(tokens, Ok(root), Some(Ok(d))).idents, line, col) == Some(
            d.ident_at(id),
        ),
    ensures
        definition(document_of(tokens, Ok(root), Some(Ok(d))), line, col) == quad(d.loc_at(id)),
{
    lemma_last_bind(d.binds@, id as u32);
    let b = last_bind(d.binds@, id as u32)->0;
    assert(d.bind_locs()[b as int] == d.bind_loc(b as int));
}

/// Documents without resolved names answer every query about names with nothing: those
/// whose source does not parse, is empty, or could not be desugared.
pub proof fn unresolved_documents_answer_nothing(
    tokens: Seq<Token>,
    parsed: Result<Node, PassError>,
    desugared: Option<Result<Desugared, PassError>>,
    line: u32,
    col: u32,
    name: Seq<char>,
)
    requires
        makes_document(parsed, desugared),
        wants_desugar(parsed) ==> desugared->0 is Err,
    ensures
        ({
            let doc = document_of(tokens, parsed, desugared);
            &&& definition(doc, line, col) == Seq::<u32>::empty()
            &&& references(doc, line, col) == Seq::<u32>::empty()
            &&& opt_quad(module_site(doc.idents, name)) == Seq::<u32>::empty()
        }),
{
}

/// A module-level binding that is found by its name is the binding site of an identifier with
/// that name, whose binding belongs to the module's scope.
pub proof fn module_binding_is_exported(idents: Seq<IdentModel>, name: Seq<char>) -> (i: int)
    ensures
        module_site(idents, name) matches Some(loc) ==> 0 <= i < idents.len() && idents[i].loc
            == loc && idents[i].name == name && idents[i].is_module_level,
        module_site(idents, name) is None ==> forall|k: int|
            0 <= k < idents.len() ==> !((#[trigger] idents[k]).is_module_level && idents[k].name
                == name),
    decreases idents.len(),
{
    if idents.len() == 0 || (idents[0].is_module_level && idents[0].name == name) {
        0
    } else {
        let i = module_binding_is_exported(idents.skip(1), name);
        if module_site(idents, name) is None {
            assert forall|k: int| 0 <= k < idents.len() implies !((
            #[trigger] idents[k]).is_module_level && idents[k].name == name) by {
                if k > 0 {
                    assert(idents.skip(1)[k - 1] == idents[k]);
                }
            }
        }
        i + 1
    }
}

proof fn lemma_ident_listed(d: Desugared, n: int, id: int) -> (i: int)
    requires
        0 <= id < n,
        d.name_at(id) is Some,
    ensures
        0 <= i < d.idents(n).len(),
        d.idents(n)[i] == d.ident_at(id),
    decreases n,
{
    if id == n - 1 {
        d.idents(n - 1).len() as int
    } else {
        lemma_ident_listed(d, n - 1, id)
    }
}

/// Every name that the module binds is found: where an identifier introduces a binding of the
/// module's scope, the look-up by its name gives the place of such an identifier.
pub proof fn module_bindings_are_found(tokens: Seq<Token>, root: Node, d: Desugared, b: int, id: u32)
    requires
        makes_document(Ok(root), Some(Ok(d))),
        !is_empty_module(root),
        0 <= b < d.binds@.len(),
        d.binds@[b].origin == BindOrigin::Ast(id),
        d.binds@[b].scope == MODULE_SCOPE,
        d.name_at(id as int) is Some,
    ensures
        module_site(
            document_of(tokens, Ok(root), Some(Ok(d))).idents,
            d.name_at(id as int)->0,
        ) is Some,
{
    broadcast use vstd::seq_lib::group_to_multiset_ensures;

    let n = d.nodes@.len() as int;
    let found = d.idents(n);
    let i = lemma_ident_listed(d, n, id as int);
    let e = d.ident_at(id as int);
    assert(exports(d.binds@, id));
    sorted_is_a_permutation(found);
    assert(found.contains(e));
    assert(found.to_multiset().contains(e));
    assert(sorted(found).contains(e));
    module_binding_is_exported(sorted(found), e.name);
}

} // verus!
