use fink_vscode::blockmap::{place_behind, BlockMap};
use fink_vscode::candidates::collect_sm_candidates;
use fink_vscode::get_sm_mappings;
use fink_vscode::sm::{output_spans, sm_fits, sm_payloads, Mapping, SourceMap, SrcRange};
use fink_vscode::smblock::{build_sm_block, try_build_sm_block};
use fink_vscode::smtext::{
    compute_fink_block_content, scan_sm_comment_after, split_trailing_sm_line,
};
use fink_vscode::syntax::{CmpPart, Node, NodeKind, PassError, Pos, Span, Token, TokenKind};

fn bytes(from: usize, to: usize) -> Span {
    Span {
        start: Pos { idx: from as u32, line: 1, col: 0 },
        end: Pos { idx: to as u32, line: 1, col: 0 },
    }
}

fn node(from: usize, to: usize, kind: NodeKind) -> Node {
    Node { loc: bytes(from, to), kind }
}

fn block(label: &str, from: usize, body: Vec<Node>) -> Node {
    let to = body.last().map(|n| n.loc.end.idx as usize).unwrap_or(from);
    node(from, to, NodeKind::Block {
        name: Box::new(node(from, from, NodeKind::Ident(label.to_string()))),
        params: Box::new(node(from, from, NodeKind::Patterns(vec![]))),
        body,
    })
}

fn mark(from: usize, to: usize, src: &str) -> Token {
    Token { kind: TokenKind::Other, loc: bytes(from, to), src: src.to_string() }
}

/// A raw block whose opening token ends at `from` and whose closing token starts at `to`.
fn raw(from: usize, to: usize, indent: u32) -> Node {
    node(from - 2, to, NodeKind::StrRawTempl {
        open: mark(from - 2, from, "\":"),
        close: mark(to, to, ""),
        children: vec![
            node(from, from, NodeKind::LitInt),
            node(from, to, NodeKind::LitStr { content: String::new(), indent }),
            node(from, to, NodeKind::LitStr { content: String::new(), indent: 99 }),
        ],
    })
}

fn leaf(from: usize, to: usize) -> Node {
    node(from, to, NodeKind::LitInt)
}

fn places(map: &BlockMap) -> Vec<(u32, u32)> {
    (0..map.dedented_len()).map(|i| map.pos_at(i)).collect()
}

#[test]
fn a_block_map_skips_the_indentation() {
    let map = BlockMap::build("ab\n    c\n\n  d", 3, 4, 4);
    // Dedented: "ab\nc\n\nd".
    assert_eq!(
        places(&map),
        vec![(3, 4), (3, 5), (3, 6), (4, 4), (4, 5), (5, 0), (6, 2)]
    );
    assert_eq!(map.pos_at(7), (6, 3));
    assert_eq!(map.pos_at(1000), (6, 3));
}

#[test]
fn a_block_map_keeps_deeper_indentation() {
    let map = BlockMap::build("a\n\t  \tb", 0, 0, 2);
    // Dedented: "a\n \tb".
    assert_eq!(places(&map), vec![(0, 0), (0, 1), (1, 2), (1, 3), (1, 4)]);
    let none = BlockMap::build("a\n b", 0, 0, 0);
    assert_eq!(places(&none), vec![(0, 0), (0, 1), (1, 0), (1, 1)]);
    // The first line is not stripped.
    let first = BlockMap::build("  a", 1, 1, 5);
    assert_eq!(places(&first), vec![(1, 1), (1, 2), (1, 3)]);
}

#[test]
fn a_block_map_counts_bytes_but_gives_utf16_columns() {
    let map = BlockMap::build("ƒx😀y", 0, 2, 0);
    assert_eq!(
        places(&map),
        vec![(0, 2), (0, 2), (0, 3), (0, 4), (0, 4), (0, 4), (0, 4), (0, 6)]
    );
    assert_eq!(map.pos_at(8), (0, 7));
}

#[test]
fn a_block_map_may_end_in_indentation() {
    let map = BlockMap::build("a\n  ", 0, 0, 4);
    assert_eq!(map.dedented_len(), 2);
    assert_eq!(map.pos_at(2), (1, 2));
    let nothing = BlockMap::build("", 5, 6, 4);
    assert_eq!(nothing.dedented_len(), 0);
    assert_eq!(nothing.pos_at(0), (5, 6));
}

#[test]
fn places_are_counted_from_the_front_of_the_document() {
    assert_eq!(place_behind(""), (0, 0));
    assert_eq!(place_behind("ab"), (0, 2));
    assert_eq!(place_behind("ab\n\nƒ😀"), (2, 3));
}

#[test]
fn a_block_map_that_leaves_32_bits_is_reported() {
    assert!(BlockMap::try_build("ab", 0, u32::MAX - 1, 0).is_none());
    assert!(BlockMap::try_build("a", 0, u32::MAX - 1, 0).is_some());
    assert!(BlockMap::try_build("\n", u32::MAX, 0, 0).is_none());
    assert!(BlockMap::try_build("😀", 0, u32::MAX - 1, 0).is_none());
}

#[test]
fn block_content_starts_at_the_first_item() {
    let src = "x\ny:\n    ab\n    cd\n";
    let c = compute_fink_block_content(src, 9, 18).unwrap();
    assert_eq!((c.start, c.end, c.strip, c.first_line, c.first_col), (9, 18, 4, 2, 4));
    let c = compute_fink_block_content(src, 0, 500).unwrap();
    assert_eq!((c.start, c.end, c.strip, c.first_line, c.first_col), (0, 19, 0, 0, 0));
    assert!(compute_fink_block_content(src, 19, 19).is_none());
    assert!(compute_fink_block_content("", 0, 0).is_none());
}

#[test]
fn block_content_is_dedented_by_what_its_lines_share() {
    // The second line is indented less than the first; blank lines do not count.
    let src = "y:\n    ab\n\n \t\r\n  cd\n      ef\n";
    let end = src.find("ef").unwrap() as u32 + 2;
    let c = compute_fink_block_content(src, 7, end).unwrap();
    assert_eq!((c.start, c.end, c.strip, c.first_line, c.first_col), (7, end, 2, 1, 4));
    // Only the lines up to the end count.
    let c = compute_fink_block_content(src, 7, 9).unwrap();
    assert_eq!((c.strip, c.first_col), (4, 4));
    // Of a body that starts on the line of its header, only the later lines count.
    let c = compute_fink_block_content("  y: a\n   b", 5, 11).unwrap();
    assert_eq!((c.strip, c.first_col), (3, 5));
    let c = compute_fink_block_content("x: a\n  b", 3, 8).unwrap();
    assert_eq!((c.strip, c.first_col), (2, 3));
    // Without later lines, the column of the first item counts.
    let c = compute_fink_block_content("  y: a\n \n", 5, 8).unwrap();
    assert_eq!((c.strip, c.first_col), (5, 5));
    // Tabs count as one character each.
    let c = compute_fink_block_content("\t\ta\n\t b", 2, 7).unwrap();
    assert_eq!((c.strip, c.first_col), (2, 2));
    // Nothing between the offsets.
    let c = compute_fink_block_content("  a", 2, 0).unwrap();
    assert_eq!((c.strip, c.first_col), (2, 2));
}

#[test]
fn a_comment_behind_a_block_is_read() {
    let src = "  ab\n  # sm:abc= \t\r\nrest";
    assert_eq!(scan_sm_comment_after(src, 4, 2, "# sm:"), Some("abc=".to_string()));
    assert_eq!(scan_sm_comment_after(src, 0, 2, "# sm:"), Some("abc=".to_string()));
    // The indentation must be exact, the prefix complete, and the line the next one.
    assert_eq!(scan_sm_comment_after(src, 4, 1, "# sm:"), None);
    assert_eq!(scan_sm_comment_after(src, 4, 3, "# sm:"), None);
    assert_eq!(scan_sm_comment_after(src, 4, 2, ";; sm:"), None);
    assert_eq!(scan_sm_comment_after(src, 5, 2, "# sm:"), None);
    assert_eq!(scan_sm_comment_after("ab", 0, 0, "# sm:"), None);
    assert_eq!(scan_sm_comment_after("ab\n", 0, 0, "# sm:"), None);
    assert_eq!(scan_sm_comment_after("ab\n# sm:", 0, 0, "# sm:"), Some(String::new()));
    assert_eq!(scan_sm_comment_after("ab\n# sm:ƒ x", 1, 0, "# sm:"), Some("ƒ x".to_string()));
    assert_eq!(scan_sm_comment_after("ab\n# sm:x", 100, 0, "# sm:"), None);
    assert_eq!(scan_sm_comment_after("ab\nƒ:x", 0, 0, "ƒ:"), Some("x".to_string()));
}

#[test]
fn a_trailing_comment_line_is_split_off() {
    assert_eq!(
        split_trailing_sm_line("(a)\n  ;; sm:abc \n \t", ";; sm:"),
        ("(a)", Some("abc".to_string()))
    );
    assert_eq!(
        split_trailing_sm_line(";; sm:\u{A0}abc", ";; sm:"),
        ("", Some("abc".to_string()))
    );
    assert_eq!(split_trailing_sm_line("a\n;; sm:x\nb", ";; sm:"), ("a\n;; sm:x\nb", None));
    assert_eq!(split_trailing_sm_line("a ;; sm:x", ";; sm:"), ("a ;; sm:x", None));
    assert_eq!(split_trailing_sm_line("a\n\u{3000};; sm:", ";; sm:"), ("a", Some(String::new())));
    assert_eq!(
        split_trailing_sm_line("a\n;; sm: b c ", ";; sm:"),
        ("a", Some("b c".to_string()))
    );
    assert_eq!(split_trailing_sm_line("", ";; sm:"), ("", None));
    assert_eq!(split_trailing_sm_line(" \n", ";; sm:"), (" \n", None));
    assert_eq!(split_trailing_sm_line("ƒ\n;; sm:x", ";; sm:"), ("ƒ", Some("x".to_string())));
}

#[test]
fn candidates_are_found_in_every_container() {
    let b = |n: Node| Box::new(n);
    let target = || raw(2, 4, 0);
    let kinds: Vec<NodeKind> = vec![
        NodeKind::Module { exprs: vec![target()] },
        NodeKind::LitSeq { items: vec![target()] },
        NodeKind::LitRec { items: vec![target()] },
        NodeKind::Patterns(vec![target()]),
        NodeKind::Pipe(vec![target()]),
        NodeKind::StrTempl { children: vec![target()] },
        NodeKind::StrRawTempl {
            open: mark(0, 1, "'"),
            close: mark(1, 1, "'"),
            children: vec![target()],
        },
        NodeKind::Apply { func: b(leaf(0, 0)), args: vec![target()] },
        NodeKind::Apply { func: b(target()), args: vec![] },
        NodeKind::Fn { params: b(target()), body: vec![] },
        NodeKind::Fn { params: b(leaf(0, 0)), body: vec![target()] },
        NodeKind::InfixOp { lhs: b(target()), rhs: b(leaf(0, 0)) },
        NodeKind::Bind { lhs: b(leaf(0, 0)), rhs: b(target()) },
        NodeKind::BindRight { lhs: b(leaf(0, 0)), rhs: b(target()) },
        NodeKind::Member { lhs: b(target()), rhs: b(leaf(0, 0)) },
        NodeKind::UnaryOp { operand: b(target()) },
        NodeKind::Group { inner: b(target()) },
        NodeKind::Try(b(target())),
        NodeKind::Spread { inner: Some(b(target())) },
        NodeKind::Match { subjects: vec![target()], arms: vec![] },
        NodeKind::Match { subjects: vec![], arms: vec![target()] },
        NodeKind::Arm { lhs: b(target()), body: vec![] },
        NodeKind::Arm { lhs: b(leaf(0, 0)), body: vec![target()] },
        NodeKind::ChainedCmp(vec![CmpPart::Operator, CmpPart::Operand(target())]),
        NodeKind::Block {
            name: b(leaf(0, 0)),
            params: b(leaf(0, 0)),
            body: vec![target()],
        },
        NodeKind::Block { name: b(target()), params: b(leaf(0, 0)), body: vec![] },
        NodeKind::Block { name: b(leaf(0, 0)), params: b(target()), body: vec![] },
    ];
    for kind in kinds {
        let n = node(0, 9, kind);
        let mut out = Vec::new();
        collect_sm_candidates(&n, &mut out);
        assert_eq!(out.len(), 1);
        assert_eq!(out[0].loc, bytes(0, 4));
    }
}

#[test]
fn only_blocks_are_candidates() {
    let plain = block("test", 0, vec![]);
    let mut out = Vec::new();
    collect_sm_candidates(&plain, &mut out);
    assert!(out.is_empty());
    // Blocks inside a block are candidates too, in its parameters as in its body.
    let nested = node(0, 9, NodeKind::Block {
        name: Box::new(node(0, 0, NodeKind::Ident("ƒink".to_string()))),
        params: Box::new(raw(2, 3, 0)),
        body: vec![block("ƒink", 5, vec![])],
    });
    let mut out = Vec::new();
    collect_sm_candidates(&nested, &mut out);
    assert_eq!(out.len(), 3);
    assert_eq!(out[1].loc.start.idx, 0);
    assert_eq!(out[1].loc.end.idx, 3);
    assert_eq!(out[2].loc.start.idx, 5);
}

const TEST_FILE: &str = "test 'x', fn:\n  expect gen ƒink:\n    add 1, 2\n    ok\n  | equals wat\":\n    (add\n      1)\n    ;; sm:AbC=\n  | done\n";

fn offset(part: &str) -> usize {
    TEST_FILE.find(part).unwrap()
}

fn input_block() -> Node {
    let (a, b) = (offset("add 1"), offset("ok\n"));
    block("ƒink", offset("ƒink"), vec![leaf(a, a + 8), leaf(b, b + 2)])
}

fn expect_block() -> Node {
    raw(offset("\":") + 2, offset("  | done"), 4)
}

#[test]
fn a_named_block_is_located() {
    let b = build_sm_block(TEST_FILE, &input_block()).unwrap();
    assert_eq!(b.indent, 4);
    assert_eq!(b.content_end_byte as usize, offset("ok\n") + 2);
    assert_eq!(b.last_content_line, 3);
    assert_eq!(b.sm_payload, None);
    // "add 1, 2\nok"
    assert_eq!(b.map.dedented_len(), 11);
    assert_eq!(b.map.pos_at(0), (2, 4));
    assert_eq!(b.map.pos_at(8), (2, 12));
    assert_eq!(b.map.pos_at(9), (3, 4));
    assert_eq!(b.map.pos_at(11), (3, 6));
}

#[test]
fn a_raw_block_is_located_without_its_comment() {
    let b = build_sm_block(TEST_FILE, &expect_block()).unwrap();
    assert_eq!(b.indent, 4);
    assert_eq!(b.content_end_byte as usize, offset("1)") + 2);
    assert_eq!(b.last_content_line, 6);
    assert_eq!(b.sm_payload, Some("AbC=".to_string()));
    // "(add\n  1)"
    assert_eq!(b.map.dedented_len(), 9);
    assert_eq!(b.map.pos_at(0), (5, 4));
    assert_eq!(b.map.pos_at(5), (6, 4));
    assert_eq!(b.map.pos_at(7), (6, 6));
    assert_eq!(b.map.pos_at(9), (6, 8));
}

#[test]
fn a_named_block_carries_the_comment_behind_it() {
    let src = "a:\n  b\n  # sm:xyz\n";
    let b = build_sm_block(src, &block("ƒink", 0, vec![leaf(5, 6)])).unwrap();
    assert_eq!(b.sm_payload, Some("xyz".to_string()));
    assert_eq!(b.map.dedented_len(), 1);
}

#[test]
fn a_named_block_starts_at_its_utf16_column() {
    // Two bytes and one column for the first character, four bytes and two columns for the
    // second.
    let src = "ƒ😀: ab\n cd";
    let from = src.find("ab").unwrap();
    let b = build_sm_block(src, &block("ƒink", 0, vec![leaf(from, src.len())])).unwrap();
    assert_eq!(b.indent, 8);
    // "ab\ncd": the header's line does not count for the dedent.
    assert_eq!(places(&b.map), vec![(0, 5), (0, 6), (0, 7), (1, 1), (1, 2)]);
    assert_eq!(b.map.pos_at(5), (1, 3));
}

#[test]
fn a_named_block_is_dedented_by_what_its_lines_share() {
    let src = "y:\n    ab\n  cd\n    # sm:xyz\n";
    let b = build_sm_block(src, &block("ƒink", 0, vec![leaf(7, 14)])).unwrap();
    assert_eq!(b.indent, 4);
    assert_eq!(places(&b.map), vec![(1, 4), (1, 5), (1, 6), (2, 2), (2, 3)]);
    assert_eq!(b.sm_payload, Some("xyz".to_string()));
}

#[test]
fn a_raw_block_may_start_on_the_line_of_its_opening_token() {
    let src = "ƒ = wat\":x\n  y";
    let from = src.find("x").unwrap();
    let b = build_sm_block(src, &raw(from, src.len(), 2)).unwrap();
    assert_eq!(places(&b.map), vec![(0, 9), (0, 10), (1, 2)]);
    assert_eq!(b.map.pos_at(3), (1, 3));
}

#[test]
fn other_nodes_are_no_blocks() {
    assert!(build_sm_block("abc", &leaf(0, 1)).is_none());
    assert!(build_sm_block("abc", &block("ƒink", 0, vec![])).is_none());
    assert!(build_sm_block("abc", &block("ƒink", 0, vec![leaf(3, 3)])).is_none());
    assert!(build_sm_block("abc", &raw(2, 2, 0)).is_none());
    assert!(build_sm_block("abc", &raw(2, 4, 0)).is_none());
    let tagged = node(0, 3, NodeKind::StrRawTempl {
        open: mark(0, 1, "'"),
        close: mark(3, 3, "'"),
        children: vec![],
    });
    assert!(build_sm_block("abc", &tagged).is_none());
}

#[test]
fn a_raw_block_of_spaces_keeps_them() {
    let b = build_sm_block("\":    ", &raw(2, 6, 2)).unwrap();
    assert_eq!(places(&b.map), vec![(0, 2), (0, 3), (0, 4), (0, 5)]);
    let b = build_sm_block("\":\n   x", &raw(2, 7, 2)).unwrap();
    assert_eq!(places(&b.map), vec![(1, 2), (1, 3)]);
    assert_eq!(b.content_end_byte, 7);
    // Less indentation than the literal says.
    let b = build_sm_block("\":\n x", &raw(2, 5, 3)).unwrap();
    assert_eq!(places(&b.map), vec![(1, 1)]);
}

#[test]
fn offsets_that_do_not_fit_are_reported() {
    // Inside a character, or out of order.
    assert!(try_build_sm_block("aƒb", &block("ƒink", 0, vec![leaf(2, 4)])).is_none());
    assert!(try_build_sm_block("aƒb", &block("ƒink", 0, vec![leaf(0, 2)])).is_none());
    assert!(try_build_sm_block("abc", &block("ƒink", 0, vec![leaf(2, 1)])).is_none());
    assert!(try_build_sm_block("abc", &block("ƒink", 0, vec![leaf(2, 9)])).is_some());
    assert!(try_build_sm_block("\":ƒ", &raw(2, 3, 0)).is_none());
    assert!(try_build_sm_block("\":ab", &raw(2, 4, u32::MAX)).is_some());
    let parsed = Ok(node(0, 4, NodeKind::Module { exprs: vec![raw(2, 3, 0)] }));
    assert!(!sm_fits("\":ƒ", &parsed));
    assert!(sm_fits("\":a", &parsed));
}

#[test]
fn output_spans_run_to_the_next_mapping() {
    let m = |out: u32| Mapping { out, src: None };
    let sm = SourceMap { mappings: vec![m(0), m(4), m(9)] };
    assert_eq!(output_spans(&sm, 20), vec![(0, 4), (4, 9), (9, 20)]);
    assert_eq!(output_spans(&SourceMap { mappings: vec![] }, 20), vec![]);
}

fn parsed_file(exprs: Vec<Node>) -> Result<Node, PassError> {
    Ok(node(0, 0, NodeKind::Module { exprs }))
}

#[test]
fn a_pair_is_reported_in_document_ranges() {
    // The walk meets the expectation first; document order decides.
    let parsed = parsed_file(vec![expect_block(), input_block()]);
    assert!(sm_fits(TEST_FILE, &parsed));
    assert_eq!(sm_payloads(TEST_FILE, &parsed), vec!["AbC=".to_string()]);
    let sm = SourceMap {
        mappings: vec![
            Mapping { out: 0, src: Some(SrcRange { start: 0, end: 3 }) },
            Mapping { out: 7, src: None },
        ],
    };
    assert_eq!(
        get_sm_mappings(TEST_FILE, &parsed, &vec![Some(sm)]),
        "[{\"mappings\":[{\"out\":{\"line\":5,\"col\":4,\"endLine\":6,\"endCol\":6},\"src\":{\"line\":2,\"col\":4,\"endLine\":2,\"endCol\":7}},{\"out\":{\"line\":6,\"col\":6,\"endLine\":6,\"endCol\":8}}]}]"
    );
    assert_eq!(get_sm_mappings(TEST_FILE, &parsed, &vec![None]), "[]");
    let nothing = SourceMap { mappings: vec![] };
    assert_eq!(
        get_sm_mappings(TEST_FILE, &parsed, &vec![Some(nothing)]),
        "[{\"mappings\":[]}]"
    );
}

#[test]
fn blocks_without_a_partner_are_left_out() {
    // An expectation without a block before it.
    let parsed = parsed_file(vec![expect_block()]);
    assert!(sm_payloads(TEST_FILE, &parsed).is_empty());
    assert_eq!(get_sm_mappings(TEST_FILE, &parsed, &vec![]), "[]");
    // The block before it has no content.
    let parsed = parsed_file(vec![block("ƒink", 0, vec![]), expect_block()]);
    assert!(sm_payloads(TEST_FILE, &parsed).is_empty());
    // No expectation.
    let parsed = parsed_file(vec![input_block(), input_block()]);
    assert!(sm_payloads(TEST_FILE, &parsed).is_empty());
}

#[test]
fn an_expectation_may_be_the_input_of_the_next() {
    let parsed = parsed_file(vec![input_block(), expect_block(), expect_block()]);
    assert_eq!(sm_payloads(TEST_FILE, &parsed), vec!["AbC=".to_string(), "AbC=".to_string()]);
    let one = || SourceMap {
        mappings: vec![Mapping { out: 0, src: Some(SrcRange { start: 0, end: 1 }) }],
    };
    assert_eq!(
        get_sm_mappings(TEST_FILE, &parsed, &vec![None, Some(one())]),
        "[{\"mappings\":[{\"out\":{\"line\":5,\"col\":4,\"endLine\":6,\"endCol\":8},\"src\":{\"line\":5,\"col\":4,\"endLine\":5,\"endCol\":5}}]}]"
    );
}

#[test]
fn a_source_that_does_not_parse_has_no_mappings() {
    let parsed: Result<Node, PassError> =
        Err(PassError { loc: bytes(0, 1), message: "no".to_string() });
    assert!(sm_fits("x", &parsed));
    assert!(sm_payloads("x", &parsed).is_empty());
    assert_eq!(get_sm_mappings("x", &parsed, &vec![]), "[]");
}
