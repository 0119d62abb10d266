//! The syntax trees and tokens that the ƒink front end hands over.
use vstd::prelude::*;

verus! {

/// A position in a source text: byte offset, line counted from 1, column counted from 0.
#[derive(Clone, Copy, PartialEq, Eq, Debug)]
pub struct Pos {
    pub idx: u32,
    pub line: u32,
    pub col: u32,
}

/// A stretch of source text, from `start` up to but not including `end`.
#[derive(Clone, Copy, PartialEq, Eq, Debug)]
pub struct Span {
    pub start: Pos,
    pub end: Pos,
}

/// A source location in editor coordinates: lines and columns counted from 0.
#[derive(Clone, Copy, PartialEq, Eq, Debug)]
pub struct Loc {
    pub line: u32,
    pub col: u32,
    pub end_line: u32,
    pub end_col: u32,
}

/// The kinds of lexer tokens that are told apart.
#[derive(Clone, Copy, PartialEq, Eq, Debug)]
pub enum TokenKind {
    /// Text that the lexer could not make sense of; the token's `src` is the message.
    Error,
    /// Any other token.
    Other,
}

/// A lexer token.
#[derive(Debug)]
pub struct Token {
    pub kind: TokenKind,
    pub loc: Span,
    pub src: String,
}

/// The error that a front-end pass stops with.
#[derive(Debug)]
pub struct PassError {
    pub loc: Span,
    pub message: String,
}

/// A node of a syntax tree.
#[derive(Debug)]
pub struct Node {
    pub loc: Span,
    pub kind: NodeKind,
}

/// What a node is, with the nodes below it.
#[allow(inconsistent_fields)]
#[derive(Debug)]
pub enum NodeKind {
    Module { exprs: Vec<Node> },
    Ident(String),
    SynthIdent,
    Token,
    LitBool,
    LitInt,
    LitFloat,
    LitDecimal,
    /// A string literal; `indent` is the indentation of the block it stands in.
    LitStr { content: String, indent: u32 },
    LitSeq { items: Vec<Node> },
    LitRec { items: Vec<Node> },
    StrTempl { children: Vec<Node> },
    /// A raw template between its `open` and `close` tokens.
    StrRawTempl { open: Token, close: Token, children: Vec<Node> },
    Patterns(Vec<Node>),
    Apply { func: Box<Node>, args: Vec<Node> },
    Pipe(Vec<Node>),
    InfixOp { lhs: Box<Node>, rhs: Box<Node> },
    UnaryOp { operand: Box<Node> },
    Bind { lhs: Box<Node>, rhs: Box<Node> },
    BindRight { lhs: Box<Node>, rhs: Box<Node> },
    Member { lhs: Box<Node>, rhs: Box<Node> },
    Group { inner: Box<Node> },
    Try(Box<Node>),
    Spread { inner: Option<Box<Node>> },
    Fn { params: Box<Node>, body: Vec<Node> },
    Match { subjects: Vec<Node>, arms: Vec<Node> },
    Arm { lhs: Box<Node>, body: Vec<Node> },
    Block { name: Box<Node>, params: Box<Node>, body: Vec<Node> },
    ChainedCmp(Vec<CmpPart>),
    Partial,
    Wildcard,
}

/// One part of a chained comparison.
#[derive(Debug)]
pub enum CmpPart {
    Operand(Node),
    Operator,
}

/// A 1-based line number counted from 0; a missing line number (0) stays 0.
pub open spec fn zero_based(line: u32) -> int {
    if line > 0 {
        line - 1
    } else {
        0
    }
}

/// `span` in editor coordinates.
pub open spec fn loc_of(span: Span) -> Loc {
    Loc {
        line: zero_based(span.start.line) as u32,
        col: span.start.col,
        end_line: zero_based(span.end.line) as u32,
        end_col: span.end.col,
    }
}

/// `span` in editor coordinates.
pub fn ast_loc(span: &Span) -> (loc: Loc)
    ensures
        loc == loc_of(*span),
{
    Loc {
        line: span.start.line.saturating_sub(1),
        col: span.start.col,
        end_line: span.end.line.saturating_sub(1),
        end_col: span.end.col,
    }
}

/// Whether `node` is an identifier.
pub open spec fn is_ident(node: Node) -> bool {
    node.kind is Ident
}

/// Whether `node` is an identifier.
pub fn ident(node: &Node) -> (yes: bool)
    ensures
        yes == is_ident(*node),
{
    match &node.kind {
        NodeKind::Ident(_) => true,
        _ => false,
    }
}

} // verus!
