use fink_vscode::syntax::{ast_loc, CmpPart, Loc, Node, NodeKind, Pos, Span, Token, TokenKind};
use fink_vscode::tokens::{
    collect_tokens, delta_encode, emit_token, resolve_callee, tokens_fit, try_collect_tokens,
    RawToken, MOD_READONLY, TOKEN_BLOCK_NAME, TOKEN_FUNCTION, TOKEN_PROPERTY, TOKEN_TAG_LEFT,
    TOKEN_TAG_RIGHT, TOKEN_VARIABLE,
};

/// A span on line `line` (counted from 1) from column `from` to column `to`; byte offsets
/// are the columns.
fn span(line: u32, from: u32, to: u32) -> Span {
    Span {
        start: Pos { idx: from, line, col: from },
        end: Pos { idx: to, line, col: to },
    }
}

fn node(line: u32, from: u32, to: u32, kind: NodeKind) -> Node {
    Node { loc: span(line, from, to), kind }
}

fn name(line: u32, from: u32, to: u32) -> Node {
    node(line, from, to, NodeKind::Ident("x".to_string()))
}

fn number(line: u32, from: u32, to: u32) -> Node {
    node(line, from, to, NodeKind::LitInt)
}

/// A call of a name at columns 10 to 13 of line 1, to be found inside other nodes.
fn call() -> Node {
    node(1, 10, 15, NodeKind::Apply { func: Box::new(name(1, 10, 13)), args: vec![number(1, 14, 15)] })
}

fn tokens_of(n: &Node) -> Vec<RawToken> {
    let mut tokens = Vec::new();
    assert!(tokens_fit(n));
    collect_tokens(n, &mut tokens);
    tokens
}

fn token(line: u32, col: u32, length: u32, token_type: u32, modifiers: u32) -> RawToken {
    RawToken { line, col, length, token_type, modifiers }
}

fn the_call() -> Vec<RawToken> {
    vec![token(0, 10, 3, TOKEN_FUNCTION, 0)]
}

#[test]
fn spans_become_editor_locations() {
    let s = Span {
        start: Pos { idx: 3, line: 2, col: 4 },
        end: Pos { idx: 9, line: 5, col: 1 },
    };
    assert_eq!(ast_loc(&s), Loc { line: 1, col: 4, end_line: 4, end_col: 1 });
    let z = span(0, 0, 0);
    assert_eq!(ast_loc(&z), Loc { line: 0, col: 0, end_line: 0, end_col: 0 });
}

#[test]
fn a_called_name_is_a_function() {
    assert_eq!(tokens_of(&call()), the_call());
    let bare = node(1, 0, 3, NodeKind::Apply { func: Box::new(name(1, 0, 3)), args: vec![] });
    assert_eq!(tokens_of(&bare), vec![token(0, 0, 3, TOKEN_FUNCTION, 0)]);
}

#[test]
fn a_name_that_touches_its_argument_is_a_tag() {
    let left = node(1, 0, 8, NodeKind::Apply {
        func: Box::new(name(1, 0, 3)),
        args: vec![number(1, 3, 8)],
    });
    assert_eq!(tokens_of(&left), vec![token(0, 0, 3, TOKEN_TAG_LEFT, 0)]);
    let right = node(1, 0, 6, NodeKind::Apply {
        func: Box::new(name(1, 3, 6)),
        args: vec![number(1, 0, 3)],
    });
    assert_eq!(tokens_of(&right), vec![token(0, 3, 3, TOKEN_TAG_RIGHT, 0)]);
}

#[test]
fn a_member_chain_calls_its_last_member() {
    let chain = node(2, 0, 9, NodeKind::Member {
        lhs: Box::new(name(2, 0, 3)),
        rhs: Box::new(node(2, 4, 9, NodeKind::Member {
            lhs: Box::new(name(2, 4, 6)),
            rhs: Box::new(name(2, 7, 9)),
        })),
    });
    assert_eq!(resolve_callee(&chain).loc, span(2, 7, 9));
    let applied = node(2, 0, 12, NodeKind::Apply {
        func: Box::new(chain),
        args: vec![number(2, 11, 12)],
    });
    assert_eq!(tokens_of(&applied), vec![token(1, 7, 2, TOKEN_FUNCTION, 0)]);
}

#[test]
fn a_called_group_colours_its_parentheses() {
    let group = Node {
        loc: Span {
            start: Pos { idx: 0, line: 1, col: 2 },
            end: Pos { idx: 20, line: 3, col: 5 },
        },
        kind: NodeKind::Group { inner: Box::new(call()) },
    };
    let applied = node(1, 0, 9, NodeKind::Apply { func: Box::new(group), args: vec![] });
    assert_eq!(
        tokens_of(&applied),
        vec![
            token(0, 2, 1, TOKEN_FUNCTION, 0),
            token(2, 4, 1, TOKEN_FUNCTION, 0),
            token(0, 10, 3, TOKEN_FUNCTION, 0),
        ]
    );
}

#[test]
fn pipe_stages_that_are_names_are_functions() {
    let pipe = node(1, 0, 30, NodeKind::Pipe(vec![name(1, 0, 2), call(), name(1, 20, 24)]));
    assert_eq!(
        tokens_of(&pipe),
        vec![
            token(0, 0, 2, TOKEN_FUNCTION, 0),
            token(0, 10, 3, TOKEN_FUNCTION, 0),
            token(0, 20, 4, TOKEN_FUNCTION, 0),
        ]
    );
}

#[test]
fn record_keys_are_properties_or_variables() {
    let arm = |from: u32, body: Vec<Node>| {
        node(1, from, from + 9, NodeKind::Arm {
            lhs: Box::new(node(1, from, from + 3, NodeKind::Patterns(vec![name(1, from, from + 3)]))),
            body,
        })
    };
    let rec = node(1, 0, 60, NodeKind::LitRec {
        items: vec![arm(30, vec![]), arm(0, vec![call()]), name(1, 50, 53)],
    });
    assert_eq!(
        tokens_of(&rec),
        vec![
            token(0, 30, 3, TOKEN_VARIABLE, MOD_READONLY),
            token(0, 0, 3, TOKEN_PROPERTY, 0),
            token(0, 10, 3, TOKEN_FUNCTION, 0),
        ]
    );
    let odd = node(1, 0, 9, NodeKind::LitRec {
        items: vec![
            node(1, 0, 9, NodeKind::Arm {
                lhs: Box::new(node(1, 0, 3, NodeKind::Patterns(vec![]))),
                body: vec![],
            }),
            node(1, 0, 9, NodeKind::Arm { lhs: Box::new(call()), body: vec![] }),
            call(),
        ],
    });
    assert_eq!(tokens_of(&odd), the_call());
}

#[test]
fn an_arm_outside_a_record_is_walked() {
    let arm = node(1, 0, 30, NodeKind::Arm { lhs: Box::new(call()), body: vec![call()] });
    assert_eq!(tokens_of(&arm).len(), 2);
}

#[test]
fn block_names_are_coloured() {
    let block = node(1, 0, 40, NodeKind::Block {
        name: Box::new(name(1, 0, 4)),
        params: Box::new(node(1, 5, 5, NodeKind::Patterns(vec![]))),
        body: vec![call()],
    });
    assert_eq!(
        tokens_of(&block),
        vec![token(0, 0, 4, TOKEN_BLOCK_NAME, 0), token(0, 10, 3, TOKEN_FUNCTION, 0)]
    );
}

#[test]
fn containers_are_walked() {
    let b = |n: Node| Box::new(n);
    let raw_token = || Token { kind: TokenKind::Other, loc: span(1, 0, 1), src: "\":".to_string() };
    let kinds: Vec<NodeKind> = vec![
        NodeKind::Module { exprs: vec![call()] },
        NodeKind::LitSeq { items: vec![call()] },
        NodeKind::Patterns(vec![call()]),
        NodeKind::StrTempl { children: vec![call()] },
        NodeKind::StrRawTempl { open: raw_token(), close: raw_token(), children: vec![call()] },
        NodeKind::InfixOp { lhs: b(call()), rhs: b(number(1, 0, 1)) },
        NodeKind::Bind { lhs: b(number(1, 0, 1)), rhs: b(call()) },
        NodeKind::BindRight { lhs: b(call()), rhs: b(number(1, 0, 1)) },
        NodeKind::Member { lhs: b(call()), rhs: b(number(1, 0, 1)) },
        NodeKind::UnaryOp { operand: b(call()) },
        NodeKind::Group { inner: b(call()) },
        NodeKind::Try(b(call())),
        NodeKind::Spread { inner: Some(b(call())) },
        NodeKind::Fn { params: b(number(1, 0, 1)), body: vec![call()] },
        NodeKind::Match { subjects: vec![call()], arms: vec![] },
        NodeKind::Match { subjects: vec![], arms: vec![call()] },
        NodeKind::ChainedCmp(vec![
            CmpPart::Operand(number(1, 0, 1)),
            CmpPart::Operator,
            CmpPart::Operand(call()),
        ]),
    ];
    for kind in kinds {
        assert_eq!(tokens_of(&node(1, 0, 40, kind)), the_call());
    }
}

#[test]
fn leaves_have_no_tokens() {
    let kinds: Vec<NodeKind> = vec![
        NodeKind::Ident("x".to_string()),
        NodeKind::SynthIdent,
        NodeKind::Token,
        NodeKind::LitBool,
        NodeKind::LitInt,
        NodeKind::LitFloat,
        NodeKind::LitDecimal,
        NodeKind::LitStr { content: "s".to_string(), indent: 0 },
        NodeKind::Spread { inner: None },
        NodeKind::Partial,
        NodeKind::Wildcard,
    ];
    for kind in kinds {
        assert_eq!(tokens_of(&node(1, 0, 4, kind)), vec![]);
    }
}

#[test]
fn a_span_over_several_lines_counts_one_column() {
    let s = Span {
        start: Pos { idx: 0, line: 1, col: 7 },
        end: Pos { idx: 9, line: 2, col: 3 },
    };
    let mut tokens = Vec::new();
    emit_token(&mut tokens, &s, TOKEN_FUNCTION, 0);
    assert_eq!(tokens, vec![token(0, 7, 1, TOKEN_FUNCTION, 0)]);
}

#[test]
fn a_backward_span_is_reported() {
    let bad = node(1, 0, 9, NodeKind::Apply { func: Box::new(name(1, 5, 2)), args: vec![] });
    assert!(!tokens_fit(&bad));
    let mut tokens = Vec::new();
    assert!(!try_collect_tokens(&node(1, 0, 9, NodeKind::Module { exprs: vec![bad] }), &mut tokens));
    // A name that is not coloured may have any span.
    assert!(tokens_fit(&name(1, 5, 2)));
}

#[test]
fn deltas_are_relative_to_the_token_before() {
    let tokens = vec![
        token(3, 2, 4, TOKEN_FUNCTION, 0),
        token(0, 5, 3, TOKEN_VARIABLE, MOD_READONLY),
        token(3, 10, 1, TOKEN_PROPERTY, 0),
        token(3, 10, 2, TOKEN_TAG_LEFT, 0),
    ];
    assert_eq!(
        delta_encode(tokens),
        vec![0, 5, 3, 1, 1, 3, 2, 4, 0, 0, 0, 8, 1, 2, 0, 0, 0, 2, 4, 0]
    );
    assert_eq!(delta_encode(vec![]), Vec::<u32>::new());
}

#[test]
fn deltas_read_back_as_the_sorted_tokens() {
    let mut tokens = vec![
        token(9, 1, 2, 3, 0),
        token(1, 4, 1, 0, 0),
        token(1, 2, 1, 5, 0),
        token(0, 7, 3, 1, 1),
        token(9, 0, 6, 2, 0),
    ];
    let data = delta_encode(tokens.clone());
    tokens.sort_by_key(|t| (t.line, t.col));
    let (mut line, mut col) = (0, 0);
    let mut read = Vec::new();
    for five in data.chunks(5) {
        if five[0] > 0 {
            line += five[0];
            col = five[1];
        } else {
            col += five[1];
        }
        read.push(token(line, col, five[2], five[3], five[4]));
    }
    assert_eq!(read, tokens);
}
