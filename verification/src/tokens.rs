//! Semantic tokens: which parts of a syntax tree are coloured, and their wire format.
use vstd::prelude::*;
use crate::sort::{in_order, sort_by_place, sorted, sorted_is_in_order, before, Placed, ReadPlace};
use crate::syntax::{ident, is_ident, zero_based, CmpPart, Node, NodeKind, Span};

verus! {

// Token types, as the editor's legend numbers them.
pub const TOKEN_FUNCTION: u32 = 0;

pub const TOKEN_VARIABLE: u32 = 1;

pub const TOKEN_PROPERTY: u32 = 2;

pub const TOKEN_BLOCK_NAME: u32 = 3;

pub const TOKEN_TAG_LEFT: u32 = 4;

pub const TOKEN_TAG_RIGHT: u32 = 5;

/// The modifier bit of read-only names.
pub const MOD_READONLY: u32 = 1;

/// A semantic token in editor coordinates.
#[derive(Clone, Copy, PartialEq, Eq, Debug)]
pub struct RawToken {
    pub line: u32,
    pub col: u32,
    pub length: u32,
    pub token_type: u32,
    pub modifiers: u32,
}

impl Placed for RawToken {
    open spec fn place(self) -> (int, int) {
        (self.line as int, self.col as int)
    }
}

impl ReadPlace for RawToken {
    fn read_place(&self) -> (p: (u32, u32)) {
        (self.line, self.col)
    }
}

/// A semantic token over the integers: a span that runs backwards gives a negative length.
pub struct Mark {
    pub line: int,
    pub col: int,
    pub length: int,
    pub token_type: u32,
    pub modifiers: u32,
}

/// The mark that covers `span`, or its first column where it runs over several lines.
pub open spec fn span_mark(span: Span, token_type: u32, modifiers: u32) -> Mark {
    Mark {
        line: zero_based(span.start.line),
        col: span.start.col as int,
        length: if span.start.line == span.end.line {
            span.end.col - span.start.col
        } else {
            1
        },
        token_type,
        modifiers,
    }
}

/// The marks on the opening and the closing parenthesis of a called group.
pub open spec fn paren_marks(span: Span) -> Seq<Mark> {
    seq![
        Mark {
            line: zero_based(span.start.line),
            col: span.start.col as int,
            length: 1,
            token_type: TOKEN_FUNCTION,
            modifiers: 0,
        },
        Mark {
            line: zero_based(span.end.line),
            col: if span.end.col > 0 {
                span.end.col - 1
            } else {
                0
            },
            length: 1,
            token_type: TOKEN_FUNCTION,
            modifiers: 0,
        },
    ]
}

/// The node that an application calls: the last member of a member chain.
pub open spec fn callee(node: Node) -> Node
    decreases node,
{
    match node.kind {
        NodeKind::Member { lhs, rhs } => callee(*rhs),
        _ => node,
    }
}

/// How a called identifier is coloured. One that touches its first argument is a tag: a
/// left tag in front of it, as in `foo'bar'`, a right tag behind it, as in `123foo`.
pub open spec fn call_type(called: Node, args: Seq<Node>) -> u32 {
    if args.len() > 0 && called.loc.end.idx == args[0].loc.start.idx {
        TOKEN_TAG_LEFT
    } else if args.len() > 0 && args[0].loc.end.idx == called.loc.start.idx {
        TOKEN_TAG_RIGHT
    } else {
        TOKEN_FUNCTION
    }
}

/// The marks on what an application calls.
pub open spec fn call_marks(func: Node, args: Seq<Node>) -> Seq<Mark> {
    let called = callee(func);
    match called.kind {
        NodeKind::Ident(_) => seq![span_mark(called.loc, call_type(called, args), 0)],
        NodeKind::Group { inner } => paren_marks(called.loc),
        _ => Seq::empty(),
    }
}

/// The mark on `node` if it is an identifier.
pub open spec fn ident_marks(node: Node, token_type: u32, modifiers: u32) -> Seq<Mark> {
    if is_ident(node) {
        seq![span_mark(node.loc, token_type, modifiers)]
    } else {
        Seq::empty()
    }
}

/// The marks on the key of a record arm: a variable where the arm is the bare shorthand
/// `{foo}`, a property where it has a body.
pub open spec fn key_marks(lhs: Node, body: Seq<Node>) -> Seq<Mark> {
    match lhs.kind {
        NodeKind::Patterns(pats) => if pats@.len() == 0 {
            Seq::empty()
        } else if body.len() == 0 {
            ident_marks(pats@[0], TOKEN_VARIABLE, MOD_READONLY)
        } else {
            ident_marks(pats@[0], TOKEN_PROPERTY, 0)
        },
        _ => Seq::empty(),
    }
}

/// The marks of the tree under `node`, in the order of a walk from the top.
pub open spec fn marks(node: Node) -> Seq<Mark>
    decreases node,
{
    match node.kind {
        NodeKind::Apply { func, args } => call_marks(*func, args@) + marks(*func) + all_marks(
            args@,
        ),
        NodeKind::Pipe(children) => pipe_marks(children@),
        NodeKind::LitRec { items } => record_marks(items@),
        NodeKind::Module { exprs } => all_marks(exprs@),
        NodeKind::LitSeq { items } => all_marks(items@),
        NodeKind::Patterns(children) => all_marks(children@),
        NodeKind::StrTempl { children } => all_marks(children@),
        NodeKind::StrRawTempl { open, close, children } => all_marks(children@),
        NodeKind::InfixOp { lhs, rhs } => marks(*lhs) + marks(*rhs),
        NodeKind::Bind { lhs, rhs } => marks(*lhs) + marks(*rhs),
        NodeKind::BindRight { lhs, rhs } => marks(*lhs) + marks(*rhs),
        NodeKind::Member { lhs, rhs } => marks(*lhs) + marks(*rhs),
        NodeKind::UnaryOp { operand } => marks(*operand),
        NodeKind::Group { inner } => marks(*inner),
        NodeKind::Try(inner) => marks(*inner),
        NodeKind::Spread { inner: Some(inner) } => marks(*inner),
        NodeKind::Fn { params, body } => marks(*params) + all_marks(body@),
        NodeKind::Match { subjects, arms } => all_marks(subjects@) + all_marks(arms@),
        NodeKind::Arm { lhs, body } => marks(*lhs) + all_marks(body@),
        NodeKind::Block { name, params, body } => ident_marks(*name, TOKEN_BLOCK_NAME, 0) + marks(
            *name,
        ) + marks(*params) + all_marks(body@),
        NodeKind::ChainedCmp(parts) => operand_marks(parts@),
        _ => Seq::empty(),
    }
}

/// The marks of several trees, one after the other.
pub open spec fn all_marks(nodes: Seq<Node>) -> Seq<Mark>
    decreases nodes,
{
    if nodes.len() == 0 {
        Seq::empty()
    } else {
        all_marks(nodes.drop_last()) + marks(nodes.last())
    }
}

/// The marks of the stages of a pipe: a stage that is a bare name is called.
pub open spec fn pipe_marks(stages: Seq<Node>) -> Seq<Mark>
    decreases stages,
{
    if stages.len() == 0 {
        Seq::empty()
    } else {
        pipe_marks(stages.drop_last()) + ident_marks(stages.last(), TOKEN_FUNCTION, 0) + marks(
            stages.last(),
        )
    }
}

/// The marks of the items of a record literal. Of an arm, the key and the body count.
pub open spec fn record_marks(items: Seq<Node>) -> Seq<Mark>
    decreases items,
{
    if items.len() == 0 {
        Seq::empty()
    } else {
        record_marks(items.drop_last()) + (match items.last().kind {
            NodeKind::Arm { lhs, body } => key_marks(*lhs, body@) + all_marks(body@),
            _ => marks(items.last()),
        })
    }
}

/// The marks of the operands of a chained comparison.
pub open spec fn operand_marks(parts: Seq<CmpPart>) -> Seq<Mark>
    decreases parts,
{
    if parts.len() == 0 {
        Seq::empty()
    } else {
        operand_marks(parts.drop_last()) + (match parts.last() {
            CmpPart::Operand(node) => marks(node),
            CmpPart::Operator => Seq::empty(),
        })
    }
}

/// Whether every mark has a length, that is, no marked span runs backwards.
pub open spec fn fits(ms: Seq<Mark>) -> bool {
    forall|k: int| 0 <= k < ms.len() ==> 0 <= (#[trigger] ms[k]).length
}

/// The tokens that the marks stand for.
pub open spec fn raw(ms: Seq<Mark>) -> Seq<RawToken> {
    Seq::new(
        ms.len(),
        |k: int|
            RawToken {
                line: ms[k].line as u32,
                col: ms[k].col as u32,
                length: ms[k].length as u32,
                token_type: ms[k].token_type,
                modifiers: ms[k].modifiers,
            },
    )
}

broadcast proof fn lemma_fits_concat(a: Seq<Mark>, b: Seq<Mark>)
    ensures
        #[trigger] fits(a + b) == (fits(a) && fits(b)),
{
    if fits(a + b) {
        assert forall|k: int| 0 <= k < a.len() implies 0 <= (#[trigger] a[k]).length by {
            assert((a + b)[k] == a[k]);
        }
        assert forall|k: int| 0 <= k < b.len() implies 0 <= (#[trigger] b[k]).length by {
            assert((a + b)[k + a.len()] == b[k]);
        }
    }
}

broadcast proof fn lemma_raw_concat(a: Seq<Mark>, b: Seq<Mark>)
    ensures
        #[trigger] raw(a + b) == raw(a) + raw(b),
{
    assert(raw(a + b) =~= raw(a) + raw(b));
}

broadcast proof fn lemma_fits_one(m: Mark)
    ensures
        #[trigger] fits(seq![m]) == (0 <= m.length),
{
    if fits(seq![m]) {
        assert(seq![m][0] == m);
    }
}

broadcast group group_marks {
    lemma_fits_concat,
    lemma_raw_concat,
    lemma_fits_one,
}

/// What has become of `tokens` once the marks `ms` have been added, if they could be.
pub open spec fn added(ok: bool, was: Seq<RawToken>, is: Seq<RawToken>, ms: Seq<Mark>) -> bool {
    &&& ok == fits(ms)
    &&& ok ==> is == was + raw(ms)
}

/// Finds the node that an application calls.
pub fn resolve_callee(node: &Node) -> (called: &Node)
    ensures
        *called == callee(*node),
    decreases node,
{
    match &node.kind {
        NodeKind::Member { lhs: _, rhs } => resolve_callee(rhs),
        _ => node,
    }
}

/// Adds a token that covers `span`.
pub fn emit_token(tokens: &mut Vec<RawToken>, span: &Span, token_type: u32, modifiers: u32)
    requires
        span.start.line == span.end.line ==> span.start.col <= span.end.col,
    ensures
        final(tokens)@ == old(tokens)@ + raw(seq![span_mark(*span, token_type, modifiers)]),
{
    let line = span.start.line.saturating_sub(1);
    let col = span.start.col;
    let length: u32 = if span.start.line == span.end.line {
        span.end.col - span.start.col
    } else {
        1
    };
    let ghost was = tokens@;
    tokens.push(RawToken { line, col, length, token_type, modifiers });
    proof {
        assert(tokens@ =~= was + raw(seq![span_mark(*span, token_type, modifiers)]));
    }
}

/// Adds a token that covers `span`, unless the span runs backwards.
fn try_emit(tokens: &mut Vec<RawToken>, span: &Span, token_type: u32, modifiers: u32) -> (ok: bool)
    ensures
        added(ok, old(tokens)@, final(tokens)@, seq![span_mark(*span, token_type, modifiers)]),
{
    broadcast use group_marks;

    if span.start.line == span.end.line && span.start.col > span.end.col {
        return false;
    }
    emit_token(tokens, span, token_type, modifiers);
    true
}

fn try_emit_ident(tokens: &mut Vec<RawToken>, node: &Node, token_type: u32, modifiers: u32) -> (ok:
    bool)
    ensures
        added(ok, old(tokens)@, final(tokens)@, ident_marks(*node, token_type, modifiers)),
{
    if ident(node) {
        try_emit(tokens, &node.loc, token_type, modifiers)
    } else {
        assert(tokens@ =~= old(tokens)@ + raw(Seq::empty()));
        true
    }
}

fn try_emit_call(func: &Node, args: &Vec<Node>, tokens: &mut Vec<RawToken>) -> (ok: bool)
    ensures
        added(ok, old(tokens)@, final(tokens)@, call_marks(*func, args@)),
{
    let called = resolve_callee(func);
    match &called.kind {
        NodeKind::Ident(_) => {
            let token_type = if args.len() > 0 && called.loc.end.idx == args[0].loc.start.idx {
                TOKEN_TAG_LEFT
            } else if args.len() > 0 && args[0].loc.end.idx == called.loc.start.idx {
                TOKEN_TAG_RIGHT
            } else {
                TOKEN_FUNCTION
            };
            try_emit(tokens, &called.loc, token_type, 0)
        },
        NodeKind::Group { inner: _ } => {
            let open_line = called.loc.start.line.saturating_sub(1);
            let close_line = called.loc.end.line.saturating_sub(1);
            tokens.push(
                RawToken {
                    line: open_line,
                    col: called.loc.start.col,
                    length: 1,
                    token_type: TOKEN_FUNCTION,
                    modifiers: 0,
                },
            );
            tokens.push(
                RawToken {
                    line: close_line,
                    col: called.loc.end.col.saturating_sub(1),
                    length: 1,
                    token_type: TOKEN_FUNCTION,
                    modifiers: 0,
                },
            );
            assert(tokens@ =~= old(tokens)@ + raw(call_marks(*func, args@)));
            true
        },
        _ => {
            assert(tokens@ =~= old(tokens)@ + raw(call_marks(*func, args@)));
            true
        },
    }
}

fn try_emit_key(lhs: &Node, body: &Vec<Node>, tokens: &mut Vec<RawToken>) -> (ok: bool)
    ensures
        added(ok, old(tokens)@, final(tokens)@, key_marks(*lhs, body@)),
{
    match &lhs.kind {
        NodeKind::Patterns(pats) => {
            if pats.len() == 0 {
                assert(tokens@ =~= old(tokens)@ + raw(key_marks(*lhs, body@)));
                true
            } else if body.len() == 0 {
                try_emit_ident(tokens, &pats[0], TOKEN_VARIABLE, MOD_READONLY)
            } else {
                try_emit_ident(tokens, &pats[0], TOKEN_PROPERTY, 0)
            }
        },
        _ => {
            assert(tokens@ =~= old(tokens)@ + raw(key_marks(*lhs, body@)));
            true
        },
    }
}

/// Adds the tokens of the tree under `node`, or reports that some marked span runs
/// backwards.
pub fn try_collect_tokens(node: &Node, tokens: &mut Vec<RawToken>) -> (ok: bool)
    ensures
        added(ok, old(tokens)@, final(tokens)@, marks(*node)),
    decreases node,
{
    broadcast use group_marks;

    let ghost was = tokens@;
    let ok = match &node.kind {
        NodeKind::Apply { func, args } => {
            try_emit_call(func, args, tokens) && try_collect_tokens(func, tokens)
                && try_collect_all(args, tokens)
        },
        NodeKind::Pipe(children) => try_collect_pipe(children, tokens),
        NodeKind::LitRec { items } => try_collect_record(items, tokens),
        NodeKind::Module { exprs } => try_collect_all(exprs, tokens),
        NodeKind::LitSeq { items } => try_collect_all(items, tokens),
        NodeKind::Patterns(children) => try_collect_all(children, tokens),
        NodeKind::StrTempl { children } => try_collect_all(children, tokens),
        NodeKind::StrRawTempl { open: _, close: _, children } => try_collect_all(
            children,
            tokens,
        ),
        NodeKind::InfixOp { lhs, rhs } => try_collect_tokens(lhs, tokens) && try_collect_tokens(
            rhs,
            tokens,
        ),
        NodeKind::Bind { lhs, rhs } => try_collect_tokens(lhs, tokens) && try_collect_tokens(
            rhs,
            tokens,
        ),
        NodeKind::BindRight { lhs, rhs } => try_collect_tokens(lhs, tokens)
            && try_collect_tokens(rhs, tokens),
        NodeKind::Member { lhs, rhs } => try_collect_tokens(lhs, tokens) && try_collect_tokens(
            rhs,
            tokens,
        ),
        NodeKind::UnaryOp { operand } => try_collect_tokens(operand, tokens),
        NodeKind::Group { inner } => try_collect_tokens(inner, tokens),
        NodeKind::Try(inner) => try_collect_tokens(inner, tokens),
        NodeKind::Spread { inner: Some(inner) } => try_collect_tokens(inner, tokens),
        NodeKind::Fn { params, body } => try_collect_tokens(params, tokens) && try_collect_all(
            body,
            tokens,
        ),
        NodeKind::Match { subjects, arms } => try_collect_all(subjects, tokens)
            && try_collect_all(arms, tokens),
        NodeKind::Arm { lhs, body } => try_collect_tokens(lhs, tokens) && try_collect_all(
            body,
            tokens,
        ),
        NodeKind::Block { name, params, body } => {
            try_emit_ident(tokens, name, TOKEN_BLOCK_NAME, 0) && try_collect_tokens(name, tokens)
                && try_collect_tokens(params, tokens) && try_collect_all(body, tokens)
        },
        NodeKind::ChainedCmp(parts) => try_collect_operands(parts, tokens),
        _ => true,
    };
    proof {
        if ok {
            assert(tokens@ =~= was + raw(marks(*node)));
        }
    }
    ok
}

fn try_collect_all(nodes: &Vec<Node>, tokens: &mut Vec<RawToken>) -> (ok: bool)
    ensures
        added(ok, old(tokens)@, final(tokens)@, all_marks(nodes@)),
    decreases nodes,
{
    let ghost was = tokens@;
    let mut ok = true;
    for i in 0..nodes.len()
        invariant
            ok == fits(all_marks(nodes@.take(i as int))),
            ok ==> tokens@ =~= was + raw(all_marks(nodes@.take(i as int))),
    {
        proof {
            broadcast use group_marks;

            assert(nodes@.take(i + 1).drop_last() =~= nodes@.take(i as int));
        }
        ok = ok && try_collect_tokens(&nodes[i], tokens);
    }
    assert(nodes@.take(nodes.len() as int) =~= nodes@);
    ok
}

fn try_collect_pipe(stages: &Vec<Node>, tokens: &mut Vec<RawToken>) -> (ok: bool)
    ensures
        added(ok, old(tokens)@, final(tokens)@, pipe_marks(stages@)),
    decreases stages,
{
    let ghost was = tokens@;
    let mut ok = true;
    for i in 0..stages.len()
        invariant
            ok == fits(pipe_marks(stages@.take(i as int))),
            ok ==> tokens@ =~= was + raw(pipe_marks(stages@.take(i as int))),
    {
        proof {
            broadcast use group_marks;

            assert(stages@.take(i + 1).drop_last() =~= stages@.take(i as int));
        }
        ok = ok && try_emit_ident(tokens, &stages[i], TOKEN_FUNCTION, 0) && try_collect_tokens(
            &stages[i],
            tokens,
        );
    }
    assert(stages@.take(stages.len() as int) =~= stages@);
    ok
}

fn try_collect_record(items: &Vec<Node>, tokens: &mut Vec<RawToken>) -> (ok: bool)
    ensures
        added(ok, old(tokens)@, final(tokens)@, record_marks(items@)),
    decreases items,
{
    let ghost was = tokens@;
    let mut ok = true;
    for i in 0..items.len()
        invariant
            ok == fits(record_marks(items@.take(i as int))),
            ok ==> tokens@ =~= was + raw(record_marks(items@.take(i as int))),
    {
        proof {
            broadcast use group_marks;

            assert(items@.take(i + 1).drop_last() =~= items@.take(i as int));
        }
        let item = &items[i];
        ok = ok && match &item.kind {
            NodeKind::Arm { lhs, body } => {
                try_emit_key(lhs, body, tokens) && try_collect_all(body, tokens)
            },
            _ => try_collect_tokens(item, tokens),
        };
    }
    assert(items@.take(items.len() as int) =~= items@);
    ok
}

fn try_collect_operands(parts: &Vec<CmpPart>, tokens: &mut Vec<RawToken>) -> (ok: bool)
    ensures
        added(ok, old(tokens)@, final(tokens)@, operand_marks(parts@)),
    decreases parts,
{
    let ghost was = tokens@;
    let mut ok = true;
    for i in 0..parts.len()
        invariant
            ok == fits(operand_marks(parts@.take(i as int))),
            ok ==> tokens@ =~= was + raw(operand_marks(parts@.take(i as int))),
    {
        proof {
            broadcast use group_marks;

            assert(parts@.take(i + 1).drop_last() =~= parts@.take(i as int));
        }
        ok = ok && match &parts[i] {
            CmpPart::Operand(node) => try_collect_tokens(node, tokens),
            CmpPart::Operator => true,
        };
    }
    assert(parts@.take(parts.len() as int) =~= parts@);
    ok
}

/// Adds the tokens of the tree under `node`.
pub fn collect_tokens(node: &Node, tokens: &mut Vec<RawToken>)
    requires
        fits(marks(*node)),
    ensures
        final(tokens)@ == old(tokens)@ + raw(marks(*node)),
{
    let _ok = try_collect_tokens(node, tokens);
}

/// Whether the tokens of the tree under `node` can be collected: no marked span runs
/// backwards.
pub fn tokens_fit(node: &Node) -> (yes: bool)
    ensures
        yes == fits(marks(*node)),
{
    let mut scratch: Vec<RawToken> = Vec::new();
    try_collect_tokens(node, &mut scratch)
}

/// The five numbers of `t` behind a token at `prev`: how many lines and columns on it
/// starts (columns from the margin where it starts a new line), then length, type and
/// modifiers.
pub open spec fn delta(prev: (int, int), t: RawToken) -> Seq<u32> {
    seq![
        (t.line - prev.0) as u32,
        (if t.line > prev.0 {
            t.col as int
        } else {
            t.col - prev.1
        }) as u32,
        t.length,
        t.token_type,
        t.modifiers,
    ]
}

/// Where the last of the tokens starts; the start of the document if there is none.
pub open spec fn last_place(s: Seq<RawToken>) -> (int, int) {
    if s.len() == 0 {
        (0, 0)
    } else {
        s.last().place()
    }
}

/// The wire format of tokens in document order: each relative to the one before.
pub open spec fn deltas(s: Seq<RawToken>) -> Seq<u32>
    decreases s.len(),
{
    if s.len() == 0 {
        Seq::empty()
    } else {
        deltas(s.drop_last()) + delta(last_place(s.drop_last()), s.last())
    }
}

/// Writes tokens in the editor's wire format, in document order.
pub fn delta_encode(tokens: Vec<RawToken>) -> (result: Vec<u32>)
    ensures
        result@ == deltas(sorted(tokens@)),
{
    let ghost given = tokens@;
    let mut tokens = tokens;
    sort_by_place(&mut tokens);
    let ghost all = tokens@;
    proof {
        sorted_is_in_order(given);
    }
    let mut result: Vec<u32> = Vec::new();
    let mut prev_line: u32 = 0;
    let mut prev_col: u32 = 0;
    for i in 0..tokens.len()
        invariant
            all == tokens@,
            in_order(all),
            (prev_line as int, prev_col as int) == last_place(all.take(i as int)),
            result@ == deltas(all.take(i as int)),
    {
        let token = tokens[i];
        proof {
            assert(all.take(i + 1).drop_last() =~= all.take(i as int));
            if i > 0 {
                assert(all.take(i as int).last() == all[i - 1]);
                assert(!before(all[i as int].place(), all[i - 1].place()));
            }
        }
        let delta_line = token.line - prev_line;
        let delta_col = if delta_line > 0 {
            token.col
        } else {
            token.col - prev_col
        };
        result.push(delta_line);
        result.push(delta_col);
        result.push(token.length);
        result.push(token.token_type);
        result.push(token.modifiers);
        prev_line = token.line;
        prev_col = token.col;
        assert(result@ =~= deltas(all.take(i + 1)));
    }
    assert(all.take(all.len() as int) =~= all);
    result
}

/// How an editor reads the wire format back.
pub open spec fn read_deltas(d: Seq<u32>) -> Seq<RawToken>
    decreases d.len(),
{
    if d.len() < 5 {
        Seq::empty()
    } else {
        let n = d.len();
        let earlier = read_deltas(d.take(n - 5));
        let prev = last_place(earlier);
        earlier.push(
            RawToken {
                line: (prev.0 + d[n - 5]) as u32,
                col: (if d[n - 5] > 0 {
                    d[n - 4] as int
                } else {
                    prev.1 + d[n - 4]
                }) as u32,
                length: d[n - 3],
                token_type: d[n - 2],
                modifiers: d[n - 1],
            },
        )
    }
}

proof fn lemma_deltas_read_back(s: Seq<RawToken>)
    requires
        in_order(s),
    ensures
        read_deltas(deltas(s)) == s,
        deltas(s).len() == 5 * s.len(),
    decreases s.len(),
{
    if s.len() > 0 {
        let init = s.drop_last();
        assert(in_order(init)) by {
            assert forall|i: int, j: int|
                #![trigger init[i], init[j]]
                0 <= i < j < init.len() implies !before(init[j].place(), init[i].place()) by {
                assert(init[i] == s[i] && init[j] == s[j]);
            }
        }
        lemma_deltas_read_back(init);
        if init.len() > 0 {
            assert(init.last() == s[s.len() - 2]);
            assert(!before(s[s.len() - 1].place(), s[s.len() - 2].place()));
        }
        let d = deltas(s);
        assert(d.take(d.len() - 5) =~= deltas(init));
        assert(read_deltas(d) =~= s);
    }
}

/// What an editor reads back from the wire format is the tokens, in document order.
pub proof fn delta_encoding_reads_back(tokens: Seq<RawToken>)
    ensures
        read_deltas(deltas(sorted(tokens))) == sorted(tokens),
        deltas(sorted(tokens)).len() == 5 * tokens.len(),
{
    sorted_is_in_order(tokens);
    crate::sort::sorted_keeps_len(tokens);
    lemma_deltas_read_back(sorted(tokens));
}

/// Whether a mark uses the editor's legend: one of its token types, and the read-only bit on
/// variables alone.
pub open spec fn in_legend(m: Mark) -> bool {
    &&& m.token_type <= TOKEN_TAG_RIGHT
    &&& m.modifiers == (if m.token_type == TOKEN_VARIABLE {
        MOD_READONLY
    } else {
        0
    })
}

/// Whether all marks use the legend.
pub open spec fn all_in_legend(ms: Seq<Mark>) -> bool {
    forall|k: int| 0 <= k < ms.len() ==> in_legend(#[trigger] ms[k])
}

/// The tokens of every tree use the editor's legend.
pub proof fn marks_use_the_legend(node: Node)
    ensures
        all_in_legend(marks(node)),
    decreases node,
{
    match node.kind {
        NodeKind::Apply { func, args } => {
            marks_use_the_legend(*func);
            lemma_all_use_the_legend(args@);
        },
        NodeKind::Pipe(children) => lemma_stages_use_the_legend(children@),
        NodeKind::LitRec { items } => lemma_items_use_the_legend(items@),
        NodeKind::Module { exprs } => lemma_all_use_the_legend(exprs@),
        NodeKind::LitSeq { items } => lemma_all_use_the_legend(items@),
        NodeKind::Patterns(children) => lemma_all_use_the_legend(children@),
        NodeKind::StrTempl { children } => lemma_all_use_the_legend(children@),
        NodeKind::StrRawTempl { open, close, children } => lemma_all_use_the_legend(children@),
        NodeKind::InfixOp { lhs, rhs } => {
            marks_use_the_legend(*lhs);
            marks_use_the_legend(*rhs);
        },
        NodeKind::Bind { lhs, rhs } => {
            marks_use_the_legend(*lhs);
            marks_use_the_legend(*rhs);
        },
        NodeKind::BindRight { lhs, rhs } => {
            marks_use_the_legend(*lhs);
            marks_use_the_legend(*rhs);
        },
        NodeKind::Member { lhs, rhs } => {
            marks_use_the_legend(*lhs);
            marks_use_the_legend(*rhs);
        },
        NodeKind::UnaryOp { operand } => marks_use_the_legend(*operand),
        NodeKind::Group { inner } => marks_use_the_legend(*inner),
        NodeKind::Try(inner) => marks_use_the_legend(*inner),
        NodeKind::Spread { inner: Some(inner) } => marks_use_the_legend(*inner),
        NodeKind::Fn { params, body } => {
            marks_use_the_legend(*params);
            lemma_all_use_the_legend(body@);
        },
        NodeKind::Match { subjects, arms } => {
            lemma_all_use_the_legend(subjects@);
            lemma_all_use_the_legend(arms@);
        },
        NodeKind::Arm { lhs, body } => {
            marks_use_the_legend(*lhs);
            lemma_all_use_the_legend(body@);
        },
        NodeKind::Block { name, params, body } => {
            marks_use_the_legend(*name);
            marks_use_the_legend(*params);
            lemma_all_use_the_legend(body@);
        },
        NodeKind::ChainedCmp(parts) => lemma_operands_use_the_legend(parts@),
        _ => {},
    }
}

proof fn lemma_all_use_the_legend(nodes: Seq<Node>)
    ensures
        all_in_legend(all_marks(nodes)),
    decreases nodes,
{
    if nodes.len() > 0 {
        lemma_all_use_the_legend(nodes.drop_last());
        marks_use_the_legend(nodes.last());
    }
}

proof fn lemma_stages_use_the_legend(stages: Seq<Node>)
    ensures
        all_in_legend(pipe_marks(stages)),
    decreases stages,
{
    if stages.len() > 0 {
        lemma_stages_use_the_legend(stages.drop_last());
        marks_use_the_legend(stages.last());
    }
}

proof fn lemma_items_use_the_legend(items: Seq<Node>)
    ensures
        all_in_legend(record_marks(items)),
    decreases items,
{
    if items.len() > 0 {
        lemma_items_use_the_legend(items.drop_last());
        match items.last().kind {
            NodeKind::Arm { lhs, body } => lemma_all_use_the_legend(body@),
            _ => marks_use_the_legend(items.last()),
        }
    }
}

proof fn lemma_operands_use_the_legend(parts: Seq<CmpPart>)
    ensures
        all_in_legend(operand_marks(parts)),
    decreases parts,
{
    if parts.len() > 0 {
        lemma_operands_use_the_legend(parts.drop_last());
        match parts.last() {
            CmpPart::Operand(node) => marks_use_the_legend(node),
            CmpPart::Operator => {},
        }
    }
}

} // verus!
