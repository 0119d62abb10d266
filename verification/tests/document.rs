use fink_vscode::document::needs_desugar;
use fink_vscode::imports::{extract_imports, write_imports};
use fink_vscode::scope::{
    BindInfo, BindOrigin, Desugared, FlatNode, RefInfo, RefKind, ScopeEvent, ScopeKind,
};
use fink_vscode::syntax::{Loc, Node, NodeKind, PassError, Pos, Span, Token, TokenKind};
use fink_vscode::ParsedDocument;

fn span(line: u32, from: u32, to: u32) -> Span {
    Span {
        start: Pos { idx: from, line, col: from },
        end: Pos { idx: to, line, col: to },
    }
}

fn node(line: u32, from: u32, to: u32, kind: NodeKind) -> Node {
    Node { loc: span(line, from, to), kind }
}

fn name(text: &str, line: u32, from: u32, to: u32) -> Node {
    node(line, from, to, NodeKind::Ident(text.to_string()))
}

fn module(exprs: Vec<Node>) -> Node {
    node(1, 0, 0, NodeKind::Module { exprs })
}

fn literal(text: &str, line: u32, from: u32, to: u32) -> Node {
    node(line, from, to, NodeKind::LitStr { content: text.to_string(), indent: 0 })
}

/// `{items} = func args` on line 1.
fn binding(items: Vec<Node>, func: Node, args: Vec<Node>) -> Node {
    node(1, 0, 30, NodeKind::Bind {
        lhs: Box::new(node(1, 0, 8, NodeKind::LitRec { items })),
        rhs: Box::new(node(1, 11, 30, NodeKind::Apply { func: Box::new(func), args })),
    })
}

fn import_statement() -> Node {
    binding(
        vec![name("foo", 1, 1, 4), node(1, 4, 5, NodeKind::Wildcard), name("ba\"r", 1, 6, 9)],
        name("import", 1, 11, 17),
        vec![literal("./a\\b.fnk", 1, 18, 29)],
    )
}

fn ident(text: &str, line: u32, from: u32, to: u32) -> Option<FlatNode> {
    Some(FlatNode { loc: span(line, from, to), name: Some(text.to_string()) })
}

fn other(line: u32, from: u32, to: u32) -> Option<FlatNode> {
    Some(FlatNode { loc: span(line, from, to), name: None })
}

fn from_node(id: u32, scope: u32) -> BindInfo {
    BindInfo { origin: BindOrigin::Ast(id), scope }
}

fn builtin() -> BindInfo {
    BindInfo { origin: BindOrigin::Builtin, scope: 0 }
}

fn unresolved(ast_id: u32) -> ScopeEvent {
    ScopeEvent::Ref(RefInfo { kind: RefKind::Unresolved, ast_id })
}

fn empty() -> Desugared {
    Desugared {
        nodes: vec![],
        resolution: vec![],
        binds: vec![],
        scopes: vec![ScopeKind::Module],
        scope_events: vec![],
    }
}

fn document(d: Desugared) -> ParsedDocument {
    let parsed = Ok(module(vec![node(1, 0, 1, NodeKind::LitInt)]));
    let desugared = Some(Ok(d));
    ParsedDocument::new(&vec![], &parsed, &desugared)
}

fn makes_none(d: Desugared) -> bool {
    let parsed = Ok(module(vec![node(1, 0, 1, NodeKind::LitInt)]));
    ParsedDocument::try_new(&vec![], &parsed, &Some(Ok(d))).is_none()
}

fn pass_error(message: &str) -> PassError {
    PassError { loc: span(3, 4, 9), message: message.to_string() }
}

/// Nodes: `x` at line 1 (module-level binding), `x` at line 2 (local binding), two
/// references to the local one, one to the module's, one to a builtin, an unknown name.
fn names() -> Desugared {
    Desugared {
        nodes: vec![
            ident("x", 2, 4, 5),
            ident("x", 3, 2, 3),
            None,
            ident("x", 1, 0, 1),
            ident("x", 4, 8, 9),
            ident("x", 3, 6, 7),
            ident("import", 5, 0, 6),
            ident("nope", 6, 0, 4),
            other(7, 0, 2),
        ],
        resolution: vec![None, Some(1), None, None, Some(2), Some(1), Some(0), None],
        binds: vec![builtin(), from_node(0, 1), from_node(3, 0)],
        scopes: vec![ScopeKind::Module, ScopeKind::Other],
        scope_events: vec![
            vec![ScopeEvent::Other, unresolved(7)],
            vec![
                ScopeEvent::Ref(RefInfo { kind: RefKind::Other, ast_id: 1 }),
                unresolved(8),
                unresolved(2),
                unresolved(99),
            ],
        ],
    }
}

#[test]
fn lexer_errors_are_reported() {
    let tokens = vec![
        Token { kind: TokenKind::Other, loc: span(1, 0, 1), src: "a".to_string() },
        Token { kind: TokenKind::Error, loc: span(2, 3, 5), src: "bad \"\\\"".to_string() },
        Token { kind: TokenKind::Error, loc: span(0, 1, 2), src: "eof".to_string() },
    ];
    let doc = ParsedDocument::new(&tokens, &Ok(module(vec![])), &None);
    assert_eq!(
        doc.get_diagnostics(),
        concat_all(&[
            "[{\"line\":1,\"col\":3,\"endLine\":1,\"endCol\":5,\"message\":\"bad \\\"\\\\\\\"\",",
            "\"source\":\"lexer\",\"severity\":\"error\"},",
            "{\"line\":0,\"col\":1,\"endLine\":0,\"endCol\":2,\"message\":\"eof\",",
            "\"source\":\"lexer\",\"severity\":\"error\"}]",
        ])
    );
}

fn concat_all(parts: &[&str]) -> String {
    let mut out = String::new();
    for p in parts {
        out.push_str(p);
    }
    out
}

#[test]
fn a_parse_error_stops_everything_else() {
    let parsed: Result<Node, PassError> = Err(pass_error("expected \"}\""));
    assert!(!needs_desugar(&parsed));
    let doc = ParsedDocument::new(&vec![], &parsed, &None);
    assert_eq!(
        doc.get_diagnostics(),
        concat_all(&[
            "[{\"line\":2,\"col\":4,\"endLine\":2,\"endCol\":9,\"message\":\"expected \\\"}\\\"\",",
            "\"source\":\"parser\",\"severity\":\"error\"}]",
        ])
    );
    assert_eq!(doc.get_semantic_tokens(), Vec::<u32>::new());
    assert_eq!(doc.get_imports(), "[]");
    assert_eq!(doc.get_definition(0, 0), Vec::<u32>::new());
    assert_eq!(doc.get_references(0, 0), Vec::<u32>::new());
    assert_eq!(doc.get_module_binding("x"), Vec::<u32>::new());
}

#[test]
fn control_characters_in_messages_are_escaped() {
    let parsed: Result<Node, PassError> = Err(pass_error("\n"));
    let doc = ParsedDocument::new(&vec![], &parsed, &None);
    assert_eq!(
        doc.get_diagnostics(),
        concat_all(&[
            "[{\"line\":2,\"col\":4,\"endLine\":2,\"endCol\":9,\"message\":\"\\u000a\",",
            "\"source\":\"parser\",\"severity\":\"error\"}]",
        ])
    );
    let import = binding(
        vec![name("a", 1, 1, 2)],
        name("import", 1, 11, 17),
        vec![literal("\n", 1, 18, 29)],
    );
    assert_eq!(
        write_imports(&extract_imports(&module(vec![import]))),
        concat_all(&[
            "[{\"url\":\"\\u000a\",\"urlLine\":0,\"urlCol\":18,\"urlEndLine\":0,\"urlEndCol\":29,",
            "\"names\":[{\"name\":\"a\",\"line\":0,\"col\":1,\"endLine\":0,\"endCol\":2}]}]",
        ])
    );
}

#[test]
fn an_empty_module_is_not_desugared() {
    let parsed: Result<Node, PassError> = Ok(module(vec![]));
    assert!(!needs_desugar(&parsed));
    let doc = ParsedDocument::new(&vec![], &parsed, &None);
    assert_eq!(doc.get_diagnostics(), "[]");
    let other_root: Result<Node, PassError> = Ok(name("x", 1, 0, 1));
    assert!(needs_desugar(&other_root));
}

#[test]
fn a_desugar_error_keeps_tokens_and_imports() {
    let parsed = Ok(module(vec![import_statement()]));
    assert!(needs_desugar(&parsed));
    let doc = ParsedDocument::new(&vec![], &parsed, &Some(Err(pass_error("no"))));
    assert_eq!(
        doc.get_diagnostics(),
        concat_all(&[
            "[{\"line\":2,\"col\":4,\"endLine\":2,\"endCol\":9,\"message\":\"no\",",
            "\"source\":\"desugar\",\"severity\":\"error\"}]",
        ])
    );
    assert_eq!(doc.get_semantic_tokens(), vec![0, 11, 6, 0, 0]);
    assert_eq!(
        doc.get_imports(),
        concat_all(&[
            "[{\"url\":\"./a\\\\b.fnk\",\"urlLine\":0,\"urlCol\":18,\"urlEndLine\":0,\"urlEndCol\":29,",
            "\"names\":[{\"name\":\"foo\",\"line\":0,\"col\":1,\"endLine\":0,\"endCol\":4},",
            "{\"name\":\"ba\\\"r\",\"line\":0,\"col\":6,\"endLine\":0,\"endCol\":9}]}]",
        ])
    );
    assert_eq!(doc.get_definition(0, 1), Vec::<u32>::new());
}

#[test]
fn imports_are_extracted_with_their_locations() {
    let found = extract_imports(&module(vec![
        name("x", 1, 0, 1),
        import_statement(),
        // No name at all.
        binding(vec![], name("import", 1, 11, 17), vec![literal("a", 1, 18, 19)]),
        // An arm without a pattern list.
        binding(
            vec![node(1, 1, 4, NodeKind::Arm { lhs: Box::new(name("a", 1, 1, 2)), body: vec![] })],
            name("import", 1, 11, 17),
            vec![literal("a", 1, 18, 19)],
        ),
        // Another function, a called expression, no argument, no literal.
        binding(vec![name("a", 1, 1, 2)], name("require", 1, 11, 17), vec![literal("a", 1, 18, 19)]),
        binding(vec![name("a", 1, 1, 2)], node(1, 11, 12, NodeKind::LitInt), vec![literal("a", 1, 18, 19)]),
        binding(vec![name("a", 1, 1, 2)], name("import", 1, 11, 17), vec![]),
        binding(vec![name("a", 1, 1, 2)], name("import", 1, 11, 17), vec![name("a", 1, 18, 19)]),
        // Bound to a single name.
        node(1, 0, 9, NodeKind::Bind {
            lhs: Box::new(name("m", 1, 0, 1)),
            rhs: Box::new(node(1, 4, 9, NodeKind::Apply {
                func: Box::new(name("import", 1, 4, 9)),
                args: vec![literal("a", 1, 10, 11)],
            })),
        }),
        // Not an application.
        node(1, 0, 9, NodeKind::Bind {
            lhs: Box::new(node(1, 0, 3, NodeKind::LitRec { items: vec![name("a", 1, 1, 2)] })),
            rhs: Box::new(name("import", 1, 4, 9)),
        }),
    ]));
    assert_eq!(found.len(), 1);
    assert_eq!(found[0].url, "./a\\b.fnk");
    assert_eq!(found[0].url_loc, Loc { line: 0, col: 18, end_line: 0, end_col: 29 });
    let names: Vec<&str> = found[0].names.iter().map(|n| n.name.as_str()).collect();
    assert_eq!(names, vec!["foo", "ba\"r"]);
    assert_eq!(found[0].names[1].loc, Loc { line: 0, col: 6, end_line: 0, end_col: 9 });
    assert!(extract_imports(&import_statement()).is_empty());
    assert_eq!(write_imports(&vec![]), "[]");
}

fn arm(patterns: Vec<Node>, body: Vec<Node>) -> Node {
    node(1, 1, 9, NodeKind::Arm {
        lhs: Box::new(node(1, 1, 9, NodeKind::Patterns(patterns))),
        body,
    })
}

#[test]
fn record_arms_import_their_names() {
    let found = extract_imports(&module(vec![binding(
        vec![
            arm(vec![name("foo", 1, 2, 5)], vec![]),
            name("bar", 1, 6, 9),
            arm(vec![name("one", 1, 2, 5), name("two", 1, 6, 9)], vec![]),
            arm(vec![node(1, 2, 3, NodeKind::Wildcard)], vec![]),
            arm(vec![], vec![]),
            arm(vec![name("baz", 1, 12, 15)], vec![name("b", 1, 17, 18)]),
        ],
        name("import", 1, 21, 27),
        vec![literal("u", 1, 28, 31)],
    )]));
    assert_eq!(found.len(), 1);
    let names: Vec<(&str, u32)> =
        found[0].names.iter().map(|n| (n.name.as_str(), n.loc.col)).collect();
    assert_eq!(names, vec![("foo", 2), ("bar", 6), ("baz", 12)]);
}

#[test]
fn unresolved_names_are_reported_in_scope_order() {
    let doc = document(names());
    assert_eq!(
        doc.get_diagnostics(),
        concat_all(&[
            "[{\"line\":5,\"col\":0,\"endLine\":5,\"endCol\":4,\"message\":\"unresolved name 'nope'\",",
            "\"source\":\"name_res\",\"severity\":\"error\"},",
            "{\"line\":6,\"col\":0,\"endLine\":6,\"endCol\":2,\"message\":\"unresolved name '?'\",",
            "\"source\":\"name_res\",\"severity\":\"error\"}]",
        ])
    );
}

#[test]
fn unused_bindings_are_warned_about() {
    let mut d = names();
    d.resolution = vec![];
    d.scope_events = vec![];
    d.binds.push(from_node(8, 1)); // not an identifier
    d.binds.push(from_node(2, 1)); // no node
    d.binds.push(from_node(1, 2)); // in a scope of the module kind
    d.scopes.push(ScopeKind::Module);
    let doc = document(d);
    assert_eq!(
        doc.get_diagnostics(),
        concat_all(&[
            "[{\"line\":1,\"col\":4,\"endLine\":1,\"endCol\":5,\"message\":\"unused binding 'x'\",",
            "\"source\":\"name_res\",\"severity\":\"warning\"}]",
        ])
    );
}

#[test]
fn pattern_bindings_are_not_warned_about() {
    let mut d = names();
    d.resolution = vec![];
    d.scope_events = vec![];
    d.scopes[1] = ScopeKind::Arm;
    assert_eq!(document(d).get_diagnostics(), "[]");
}

#[test]
fn used_exported_and_builtin_bindings_are_not_warned_about() {
    let mut d = names();
    d.scope_events = vec![];
    assert_eq!(document(d).get_diagnostics(), "[]");
}

#[test]
fn a_reference_leads_to_its_binding_site() {
    let doc = document(names());
    assert_eq!(doc.get_definition(2, 2), vec![1, 4, 1, 5]);
    assert_eq!(doc.get_definition(3, 8), vec![0, 0, 0, 1]);
    // The end column is outside.
    assert_eq!(doc.get_definition(2, 3), Vec::<u32>::new());
    assert_eq!(doc.get_definition(2, 1), Vec::<u32>::new());
    // A builtin has no place in the source, an unknown name no binding.
    assert_eq!(doc.get_definition(4, 3), Vec::<u32>::new());
    assert_eq!(doc.get_definition(5, 0), Vec::<u32>::new());
    // The binding site is its own definition.
    assert_eq!(doc.get_definition(1, 4), vec![1, 4, 1, 5]);
}

#[test]
fn references_start_with_the_binding_site() {
    let doc = document(names());
    let local = vec![1, 4, 1, 5, 2, 2, 2, 3, 2, 6, 2, 7];
    assert_eq!(doc.get_references(1, 4), local);
    assert_eq!(doc.get_references(2, 2), local);
    assert_eq!(doc.get_references(2, 6), local);
    assert_eq!(doc.get_references(3, 8), vec![0, 0, 0, 1, 3, 8, 3, 9]);
    // A builtin is referred to, but bound nowhere.
    assert_eq!(doc.get_references(4, 0), vec![4, 0, 4, 6]);
    assert_eq!(doc.get_references(5, 1), Vec::<u32>::new());
    assert_eq!(doc.get_references(9, 9), Vec::<u32>::new());
}

#[test]
fn bindings_are_found_at_cursor_positions() {
    let doc = document(names());
    assert_eq!(doc.find_bind_at(1, 4), Some(1));
    assert_eq!(doc.find_bind_at(2, 6), Some(1));
    assert_eq!(doc.find_bind_at(0, 0), Some(2));
    assert_eq!(doc.find_bind_at(4, 5), Some(0));
    assert_eq!(doc.find_bind_at(5, 0), None);
    assert_eq!(doc.find_bind_at(4, 6), None);
}

#[test]
fn module_bindings_are_found_by_name() {
    // The local `x` of the second line does not hide the module's.
    let mut d = names();
    d.nodes[3] = ident("x", 9, 0, 1);
    let doc = document(d);
    assert_eq!(doc.get_module_binding("x"), vec![8, 0, 8, 1]);
    assert_eq!(doc.get_module_binding("nope"), Vec::<u32>::new());
    let mut d = names();
    d.binds[2].scope = 1;
    assert_eq!(document(d).get_module_binding("x"), Vec::<u32>::new());
}

#[test]
fn one_binding_of_the_module_makes_a_node_an_export() {
    for scopes in [[0, 1], [1, 0], [0, 0]] {
        let mut d = empty();
        d.scopes.push(ScopeKind::Other);
        d.nodes = vec![ident("a", 1, 0, 1), ident("a", 2, 0, 1)];
        d.resolution = vec![None, Some(0)];
        d.binds = vec![from_node(0, scopes[0]), from_node(0, scopes[1])];
        assert_eq!(document(d).get_module_binding("a"), vec![0, 0, 0, 1]);
    }
    let mut d = empty();
    d.scopes.push(ScopeKind::Other);
    d.nodes = vec![ident("a", 1, 0, 1)];
    d.binds = vec![from_node(0, 1), from_node(0, 1)];
    assert_eq!(document(d).get_module_binding("a"), Vec::<u32>::new());
}

#[test]
fn the_last_binding_of_a_node_counts() {
    let mut d = empty();
    d.nodes = vec![ident("a", 1, 0, 1), ident("a", 2, 0, 1)];
    d.resolution = vec![None, Some(0)];
    d.binds = vec![from_node(0, 0), from_node(0, 0)];
    let doc = document(d);
    assert_eq!(doc.find_bind_at(0, 0), Some(1));
    assert_eq!(doc.find_bind_at(1, 0), Some(0));
}

#[test]
fn a_reference_that_also_binds_resolves_first() {
    let mut d = empty();
    d.nodes = vec![ident("a", 1, 0, 1), ident("a", 2, 0, 1)];
    d.resolution = vec![None, Some(0)];
    d.binds = vec![from_node(0, 0), from_node(1, 0)];
    let doc = document(d);
    assert_eq!(doc.find_bind_at(1, 0), Some(0));
    assert_eq!(doc.get_references(1, 0), vec![0, 0, 0, 1, 1, 0, 1, 1]);
}

#[test]
fn parts_that_do_not_fit_make_no_document() {
    let mut d = names();
    d.resolution[1] = Some(3);
    assert!(makes_none(d));
    // A node that is no identifier may refer anywhere.
    let mut d = names();
    d.resolution.push(Some(77));
    assert!(!makes_none(d));
    let mut d = names();
    d.binds.push(from_node(8, 5));
    assert!(makes_none(d));
    // The scope of a used binding is not looked at.
    let mut d = names();
    d.binds[1].scope = 5;
    assert!(!makes_none(d));
    let parsed = Ok(module(vec![name("x", 1, 0, 1)]));
    assert!(ParsedDocument::try_new(&vec![], &parsed, &None).is_none());
    let backwards = Ok(module(vec![node(1, 0, 9, NodeKind::Pipe(vec![name("f", 1, 5, 2)]))]));
    assert!(ParsedDocument::try_new(&vec![], &backwards, &Some(Ok(empty()))).is_none());
}
