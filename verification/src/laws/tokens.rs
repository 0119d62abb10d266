//! Laws of the semantic tokens.
use vstd::prelude::*;
use crate::document::{document_of, makes_document};
use crate::laws::{editor_line, nothing_to_desugar};
use crate::laws::navigation::refers_to;
use crate::laws::tree::{kid, lemma_kid_range, lemma_kid_smaller, met_before, width};
use crate::scope::Desugared;
use crate::sort::{
    before, in_order, sorted, sorted_commutes_with_map, sorted_is_in_order, sorted_is_ranked,
    sorted_keeps_items, sorted_keeps_len, Placed,
};
use crate::syntax::{CmpPart, Node, NodeKind, PassError, Span, Token};
use crate::tokens::{
    all_marks, call_marks, callee, deltas, fits, ident_marks, key_marks, last_place, marks,
    operand_marks, pipe_marks, raw, record_marks, Mark, RawToken, TOKEN_BLOCK_NAME, TOKEN_FUNCTION,
};

verus! {

/// As what a node is met: as a stage of a pipe, as an item of a record, or as neither.
pub enum Role {
    Plain,
    Stage,
    Item,
}

/// The node that a walk meets as number `i` below `node`, and as what. The key of a record
/// item is not met by itself.
pub open spec fn step(node: Node, role: Role, i: int) -> Option<(Node, Role)> {
    if role is Item && node.kind is Arm && i == 0 {
        None
    } else {
        match kid(node, i) {
            Some(k) => Some(
                (
                    k,
                    if node.kind is Pipe {
                        Role::Stage
                    } else if node.kind is LitRec {
                        Role::Item
                    } else {
                        Role::Plain
                    },
                ),
            ),
            None => None,
        }
    }
}

/// The node that a walk meets at the end of a path, and as what.
pub open spec fn visited(node: Node, role: Role, path: Seq<int>) -> Option<(Node, Role)>
    decreases path.len(),
{
    if path.len() == 0 {
        Some((node, role))
    } else {
        match step(node, role, path[0]) {
            Some((k, r)) => visited(k, r, path.skip(1)),
            None => None,
        }
    }
}

/// What is coloured: the node at the end of a path, for one of the reasons that `coloured`
/// tells apart.
pub struct Origin {
    pub path: Seq<int>,
    pub part: int,
}

/// Whether a walk meets `a` before `b`.
pub open spec fn earlier(a: Origin, b: Origin) -> bool {
    met_before(a.path, b.path) || (a.path == b.path && a.part < b.part)
}

/// The mark over a span; of one that runs over several lines only the first column.
pub open spec fn over(span: Span, token_type: u32, modifiers: u32) -> Mark {
    Mark {
        line: editor_line(span.start.line),
        col: span.start.col as int,
        length: if span.start.line == span.end.line {
            span.end.col - span.start.col
        } else {
            1
        },
        token_type,
        modifiers,
    }
}

/// Whether `chain` leads from `func` through the right sides of member accesses to `called`.
pub open spec fn is_chain(chain: Seq<Node>, func: Node, called: Node) -> bool {
    &&& chain.len() > 0
    &&& chain[0] == func
    &&& chain.last() == called
    &&& !(called.kind is Member)
    &&& forall|k: int|
        0 <= k < chain.len() - 1 ==> (#[trigger] chain[k]).kind is Member
            && *chain[k].kind->Member_rhs == chain[k + 1]
}

/// Whether an application of `func` calls `called`.
pub open spec fn calls(func: Node, called: Node) -> bool {
    exists|chain: Seq<Node>| #[trigger] is_chain(chain, func, called)
}

/// Whether `m` colours `node`, for reason `part`, where it is met as `role`:
/// 0 a name that is a stage of a pipe, as a function;
/// 1 the name that is the key of a record item, as a read-only variable if it stands for
/// itself and as a property if it has a value;
/// 2 the name that an application calls, as a left tag right before the first argument, as a
/// right tag right behind it, and else as a function;
/// 3 and 4 the parentheses of a group that an application calls, as a function;
/// 5 the name of a block.
pub open spec fn coloured(node: Node, role: Role, part: int, m: Mark) -> bool {
    ||| {
        &&& part == 0
        &&& role is Stage
        &&& node.kind is Ident
        &&& m == over(node.loc, 0, 0)
    }
    ||| {
        let pats = node.kind->Arm_lhs.kind->Patterns_0@;
        &&& part == 1
        &&& role is Item
        &&& node.kind is Arm
        &&& node.kind->Arm_lhs.kind is Patterns
        &&& pats.len() > 0
        &&& pats[0].kind is Ident
        &&& m == (if node.kind->Arm_body@.len() == 0 {
            over(pats[0].loc, 1, 1)
        } else {
            over(pats[0].loc, 2, 0)
        })
    }
    ||| {
        &&& part == 2
        &&& node.kind is Apply
        &&& exists|called: Node| #[trigger]
            calls(*node.kind->func, called) && called.kind is Ident && m == over(
                called.loc,
                if node.kind->args@.len() > 0 && called.loc.end.idx
                    == node.kind->args@[0].loc.start.idx {
                    4
                } else if node.kind->args@.len() > 0 && node.kind->args@[0].loc.end.idx
                    == called.loc.start.idx {
                    5
                } else {
                    0
                },
                0,
            )
    }
    ||| {
        &&& part == 3
        &&& node.kind is Apply
        &&& exists|called: Node| #[trigger]
            calls(*node.kind->func, called) && called.kind is Group && m == (Mark {
                line: editor_line(called.loc.start.line),
                col: called.loc.start.col as int,
                length: 1,
                token_type: 0,
                modifiers: 0,
            })
    }
    ||| {
        &&& part == 4
        &&& node.kind is Apply
        &&& exists|called: Node| #[trigger]
            calls(*node.kind->func, called) && called.kind is Group && m == (Mark {
                line: editor_line(called.loc.end.line),
                col: if called.loc.end.col == 0 {
                    0
                } else {
                    called.loc.end.col - 1
                },
                length: 1,
                token_type: 0,
                modifiers: 0,
            })
    }
    ||| {
        &&& part == 5
        &&& node.kind is Block
        &&& node.kind->name.kind is Ident
        &&& m == over(node.kind->name.loc, 3, 0)
    }
}

/// Whether `m` colours what `o` stands for in the tree under `node`.
pub open spec fn paints(node: Node, role: Role, o: Origin, m: Mark) -> bool {
    match visited(node, role, o.path) {
        Some((n, r)) => coloured(n, r, o.part, m),
        None => false,
    }
}

/// Whether the token `t` is the mark `m`.
pub open spec fn is_mark(t: RawToken, m: Mark) -> bool {
    &&& t.line == m.line
    &&& t.col == m.col
    &&& t.length == m.length
    &&& t.token_type == m.token_type
    &&& t.modifiers == m.modifiers
}

/// Whether `nums` is the wire format of `toks`: five numbers to a token, lines relative to the
/// token before, columns too where it stands on the same line.
pub open spec fn decodes(nums: Seq<u32>, toks: Seq<RawToken>) -> bool {
    &&& nums.len() == 5 * toks.len()
    &&& forall|k: int|
        #![trigger toks[k]]
        0 <= k < toks.len() ==> {
            let line = if k == 0 {
                0int
            } else {
                toks[k - 1].line as int
            };
            let col = if k == 0 {
                0int
            } else {
                toks[k - 1].col as int
            };
            &&& toks[k].line == line + nums[5 * k]
            &&& toks[k].col == nums[5 * k + 1] + (if nums[5 * k] == 0 {
                col
            } else {
                0
            })
            &&& toks[k].length == nums[5 * k + 2]
            &&& toks[k].token_type == nums[5 * k + 3]
            &&& toks[k].modifiers == nums[5 * k + 4]
        }
}

proof fn lemma_decodes(s: Seq<RawToken>)
    requires
        in_order(s),
    ensures
        decodes(deltas(s), s),
    decreases s.len(),
{
    if s.len() > 0 {
        let init = s.drop_last();
        assert(in_order(init)) by {
            assert forall|i: int, j: int|
                #![trigger init[i], init[j]]
                0 <= i < j < init.len() implies !before(init[j].place(), init[i].place()) by {
                assert(init[i] == s[i] && init[j] == s[j]);
            }
        }
        lemma_decodes(init);
        let nums = deltas(s);
        let n = init.len() as int;
        if n > 0 {
            assert(last_place(init) == s[n - 1].place());
            assert(!before(s[n].place(), s[n - 1].place()));
        }
        assert forall|k: int|
            #![trigger s[k]]
            0 <= k < s.len() implies {
            let line = if k == 0 {
                0int
            } else {
                s[k - 1].line as int
            };
            let col = if k == 0 {
                0int
            } else {
                s[k - 1].col as int
            };
            &&& s[k].line == line + nums[5 * k]
            &&& s[k].col == nums[5 * k + 1] + (if nums[5 * k] == 0 {
                col
            } else {
                0
            })
            &&& s[k].length == nums[5 * k + 2]
            &&& s[k].token_type == nums[5 * k + 3]
            &&& s[k].modifiers == nums[5 * k + 4]
        } by {
            if k < n {
                assert(init[k] == s[k]);
                if k > 0 {
                    assert(init[k - 1] == s[k - 1]);
                }
                assert(nums[5 * k] == deltas(init)[5 * k]);
                assert(nums[5 * k + 1] == deltas(init)[5 * k + 1]);
                assert(nums[5 * k + 2] == deltas(init)[5 * k + 2]);
                assert(nums[5 * k + 3] == deltas(init)[5 * k + 3]);
                assert(nums[5 * k + 4] == deltas(init)[5 * k + 4]);
            }
        }
    }
}

proof fn lemma_callee(func: Node) -> (chain: Seq<Node>)
    ensures
        is_chain(chain, func, callee(func)),
        calls(func, callee(func)),
    decreases func,
{
    match func.kind {
        NodeKind::Member { lhs, rhs } => {
            let rest = lemma_callee(*rhs);
            let chain = seq![func] + rest;
            assert forall|k: int| 0 <= k < chain.len() - 1 implies (#[trigger] chain[k]).kind is Member
                && *chain[k].kind->Member_rhs == chain[k + 1] by {
                if k > 0 {
                    assert(chain[k] == rest[k - 1]);
                    assert(chain[k + 1] == rest[k]);
                }
            }
            assert(is_chain(chain, func, callee(func)));
            chain
        },
        _ => {
            let chain = seq![func];
            assert(is_chain(chain, func, callee(func)));
            chain
        },
    }
}

proof fn lemma_only_callee(chain: Seq<Node>, func: Node, called: Node)
    requires
        is_chain(chain, func, called),
    ensures
        callee(func) == called,
    decreases chain.len(),
{
    if chain.len() > 1 {
        assert(chain[0].kind is Member);
        let rest = chain.skip(1);
        assert forall|k: int| 0 <= k < rest.len() - 1 implies (#[trigger] rest[k]).kind is Member
            && *rest[k].kind->Member_rhs == rest[k + 1] by {
            assert(rest[k] == chain[k + 1]);
        }
        lemma_only_callee(rest, rest[0], called);
    }
}

spec fn own(node: Node, role: Role) -> Seq<Mark> {
    (if role is Stage {
        ident_marks(node, TOKEN_FUNCTION, 0)
    } else {
        Seq::empty()
    }) + (match node.kind {
        NodeKind::Apply { func, args } => call_marks(*func, args@),
        NodeKind::Block { name, params, body } => ident_marks(*name, TOKEN_BLOCK_NAME, 0),
        NodeKind::Arm { lhs, body } => if role is Item {
            key_marks(*lhs, body@)
        } else {
            Seq::empty()
        },
        _ => Seq::empty(),
    })
}

proof fn lemma_own(node: Node, role: Role) -> (parts: Seq<int>)
    ensures
        parts.len() == own(node, role).len(),
        forall|k: int|
            0 <= k < parts.len() ==> coloured(
                node,
                role,
                #[trigger] parts[k],
                own(node, role)[k],
            ),
        forall|i: int, j: int|
            #![trigger parts[i], parts[j]]
            0 <= i < j < parts.len() ==> parts[i] < parts[j],
        forall|part: int, m: Mark| #[trigger]
            coloured(node, role, part, m) ==> exists|k: int|
                0 <= k < parts.len() && #[trigger] parts[k] == part && own(node, role)[k] == m,
{
    let ms = own(node, role);
    match node.kind {
        NodeKind::Apply { func, args } => {
            let c = callee(*func);
            let chain = lemma_callee(*func);
            assert(calls(*func, c));
            assert forall|called: Node| #[trigger] calls(*func, called) implies called == c by {
                let ch = choose|ch: Seq<Node>| #[trigger] is_chain(ch, *func, called);
                lemma_only_callee(ch, *func, called);
            }
            if c.kind is Ident {
                let parts = seq![2int];
                assert(coloured(node, role, 2, ms[0]));
                assert(parts[0] == 2);
                parts
            } else if c.kind is Group {
                let parts = seq![3int, 4int];
                assert(coloured(node, role, 3, ms[0]));
                assert(coloured(node, role, 4, ms[1]));
                assert(parts[0] == 3 && parts[1] == 4);
                parts
            } else {
                Seq::empty()
            }
        },
        NodeKind::Block { name, params, body } => {
            if name.kind is Ident {
                let parts = seq![5int];
                assert(coloured(node, role, 5, ms[0]));
                assert(parts[0] == 5);
                parts
            } else {
                Seq::empty()
            }
        },
        NodeKind::Arm { lhs, body } => {
            if ms.len() > 0 {
                let parts = seq![1int];
                assert(coloured(node, role, 1, ms[0]));
                assert(parts[0] == 1);
                parts
            } else {
                Seq::empty()
            }
        },
        NodeKind::Ident(_) => {
            if role is Stage {
                let parts = seq![0int];
                assert(coloured(node, role, 0, ms[0]));
                assert(parts[0] == 0);
                parts
            } else {
                Seq::empty()
            }
        },
        _ => { Seq::empty() },
    }
}

spec fn met_marks(node: Node, role: Role) -> Seq<Mark> {
    match role {
        Role::Plain => marks(node),
        Role::Stage => ident_marks(node, TOKEN_FUNCTION, 0) + marks(node),
        Role::Item => match node.kind {
            NodeKind::Arm { lhs, body } => key_marks(*lhs, body@) + all_marks(body@),
            _ => marks(node),
        },
    }
}

spec fn step_marks(node: Node, role: Role, i: int) -> Seq<Mark> {
    match step(node, role, i) {
        Some((k, r)) => met_marks(k, r),
        None => Seq::empty(),
    }
}

spec fn kid_marks(node: Node, role: Role, n: int) -> Seq<Mark>
    decreases n,
{
    if n <= 0 {
        Seq::empty()
    } else {
        kid_marks(node, role, n - 1) + step_marks(node, role, n - 1)
    }
}

proof fn lemma_list(node: Node, role: Role, off: int, items: Seq<Node>, n: int)
    requires
        0 <= off,
        0 <= n <= items.len(),
        forall|j: int|
            #![trigger items[j]]
            0 <= j < items.len() ==> step(node, role, off + j) == Some((items[j], Role::Plain)),
    ensures
        kid_marks(node, role, off + n) == kid_marks(node, role, off) + all_marks(items.take(n)),
    decreases n,
{
    if n == 0 {
        assert(kid_marks(node, role, off) + all_marks(items.take(0)) =~= kid_marks(
            node,
            role,
            off,
        ));
    } else {
        lemma_list(node, role, off, items, n - 1);
        assert(items.take(n).drop_last() =~= items.take(n - 1));
        assert(items[n - 1] == items.take(n).last());
        assert(step_marks(node, role, off + n - 1) == marks(items[n - 1]));
        assert(kid_marks(node, role, off + n) =~= kid_marks(node, role, off) + all_marks(
            items.take(n),
        ));
    }
}

proof fn lemma_whole_list(node: Node, role: Role, off: int, items: Seq<Node>)
    requires
        0 <= off,
        forall|j: int|
            #![trigger items[j]]
            0 <= j < items.len() ==> step(node, role, off + j) == Some((items[j], Role::Plain)),
    ensures
        kid_marks(node, role, off + items.len()) == kid_marks(node, role, off) + all_marks(items),
{
    lemma_list(node, role, off, items, items.len() as int);
    assert(items.take(items.len() as int) =~= items);
}

proof fn lemma_pipe(node: Node, role: Role, items: Seq<Node>, n: int)
    requires
        0 <= n <= items.len(),
        forall|j: int|
            #![trigger items[j]]
            0 <= j < items.len() ==> step(node, role, j) == Some((items[j], Role::Stage)),
    ensures
        kid_marks(node, role, n) == pipe_marks(items.take(n)),
    decreases n,
{
    if n > 0 {
        lemma_pipe(node, role, items, n - 1);
        assert(items.take(n).drop_last() =~= items.take(n - 1));
        assert(items[n - 1] == items.take(n).last());
        assert(kid_marks(node, role, n) =~= pipe_marks(items.take(n)));
    }
}

proof fn lemma_record(node: Node, role: Role, items: Seq<Node>, n: int)
    requires
        0 <= n <= items.len(),
        forall|j: int|
            #![trigger items[j]]
            0 <= j < items.len() ==> step(node, role, j) == Some((items[j], Role::Item)),
    ensures
        kid_marks(node, role, n) == record_marks(items.take(n)),
    decreases n,
{
    if n > 0 {
        lemma_record(node, role, items, n - 1);
        assert(items.take(n).drop_last() =~= items.take(n - 1));
        assert(items[n - 1] == items.take(n).last());
        assert(kid_marks(node, role, n) =~= record_marks(items.take(n)));
    }
}

proof fn lemma_operands(node: Node, role: Role, parts: Seq<CmpPart>, n: int)
    requires
        0 <= n <= parts.len(),
        forall|j: int|
            #![trigger parts[j]]
            0 <= j < parts.len() ==> step(node, role, j) == (match parts[j] {
                CmpPart::Operand(k) => Some((k, Role::Plain)),
                CmpPart::Operator => None,
            }),
    ensures
        kid_marks(node, role, n) == operand_marks(parts.take(n)),
    decreases n,
{
    if n > 0 {
        lemma_operands(node, role, parts, n - 1);
        assert(parts.take(n).drop_last() =~= parts.take(n - 1));
        assert(parts[n - 1] == parts.take(n).last());
        assert(kid_marks(node, role, n) =~= operand_marks(parts.take(n)));
    }
}

proof fn lemma_two(node: Node, role: Role)
    requires
        width(node) == 2,
    ensures
        kid_marks(node, role, width(node)) == step_marks(node, role, 0) + step_marks(node, role, 1),
{
    reveal_with_fuel(kid_marks, 3);
    assert(kid_marks(node, role, 2) =~= step_marks(node, role, 0) + step_marks(node, role, 1));
}

proof fn lemma_parts_of_lists(node: Node, role: Role, items: Seq<Node>)
    requires
        marks(node) == all_marks(items),
        width(node) == items.len(),
        own(node, Role::Plain).len() == 0,
        !(node.kind is Arm) && !(node.kind is Ident),
        forall|j: int|
            #![trigger items[j]]
            0 <= j < items.len() ==> step(node, role, j) == Some((items[j], Role::Plain)),
    ensures
        marks(node) == kid_marks(node, role, width(node)),
{
    lemma_whole_list(node, role, 0, items);
    assert(kid_marks(node, role, 0) + all_marks(items) =~= all_marks(items));
}

proof fn lemma_parts_behind_one(node: Node, role: Role, first: Seq<Mark>, items: Seq<Node>)
    requires
        step_marks(node, role, 0) == first,
        width(node) == items.len() + 1,
        forall|j: int|
            #![trigger items[j]]
            0 <= j < items.len() ==> step(node, role, 1 + j) == Some((items[j], Role::Plain)),
    ensures
        kid_marks(node, role, width(node)) == first + all_marks(items),
{
    reveal_with_fuel(kid_marks, 2);
    assert(kid_marks(node, role, 1) =~= first);
    lemma_whole_list(node, role, 1, items);
}

proof fn lemma_parts_of_blocks(node: Node, role: Role)
    requires
        node.kind is Block,
    ensures
        met_marks(node, role) == own(node, role) + kid_marks(node, role, width(node)),
{
    if let NodeKind::Block { name, params, body } = node.kind {
        reveal_with_fuel(kid_marks, 3);
        assert(kid_marks(node, role, 2) =~= marks(*name) + marks(*params));
        lemma_whole_list(node, role, 2, body@);
        assert(met_marks(node, role) =~= own(node, role) + kid_marks(node, role, width(node)));
    }
}

proof fn lemma_parts_of_matches(node: Node, role: Role)
    requires
        node.kind is Match,
    ensures
        met_marks(node, role) == own(node, role) + kid_marks(node, role, width(node)),
{
    if let NodeKind::Match { subjects, arms } = node.kind {
        lemma_whole_list(node, role, 0, subjects@);
        assert forall|j: int|
            #![trigger arms@[j]]
            0 <= j < arms@.len() implies step(node, role, subjects@.len() + j) == Some(
            (arms@[j], Role::Plain),
        ) by {}
        lemma_whole_list(node, role, subjects@.len() as int, arms@);
        assert(met_marks(node, role) =~= own(node, role) + kid_marks(node, role, width(node)));
    }
}

proof fn lemma_parts_of_calls(node: Node, role: Role)
    requires
        node.kind is Apply || node.kind is Fn || node.kind is Arm,
    ensures
        met_marks(node, role) == own(node, role) + kid_marks(node, role, width(node)),
{
    match node.kind {
        NodeKind::Apply { func, args } => {
            lemma_parts_behind_one(node, role, marks(*func), args@);
        },
        NodeKind::Fn { params, body } => {
            lemma_parts_behind_one(node, role, marks(*params), body@);
        },
        NodeKind::Arm { lhs, body } => {
            let first = if role is Item {
                Seq::empty()
            } else {
                marks(*lhs)
            };
            lemma_parts_behind_one(node, role, first, body@);
        },
        _ => {},
    }
    assert(met_marks(node, role) =~= own(node, role) + kid_marks(node, role, width(node)));
}

proof fn lemma_parts_of_special_lists(node: Node, role: Role)
    requires
        node.kind is LitRec || node.kind is Pipe || node.kind is ChainedCmp,
    ensures
        marks(node) == kid_marks(node, role, width(node)),
{
    match node.kind {
        NodeKind::LitRec { items } => {
            lemma_record(node, role, items@, items@.len() as int);
            assert(items@.take(items@.len() as int) =~= items@);
        },
        NodeKind::Pipe(items) => {
            lemma_pipe(node, role, items@, items@.len() as int);
            assert(items@.take(items@.len() as int) =~= items@);
        },
        NodeKind::ChainedCmp(parts) => {
            lemma_operands(node, role, parts@, parts@.len() as int);
            assert(parts@.take(parts@.len() as int) =~= parts@);
        },
        _ => {},
    }
}

proof fn lemma_parts_of_small(node: Node, role: Role)
    requires
        !(node.kind is Module || node.kind is LitSeq || node.kind is LitRec || node.kind is Patterns
            || node.kind is Pipe || node.kind is StrTempl || node.kind is StrRawTempl
            || node.kind is Apply || node.kind is Fn || node.kind is Arm || node.kind is Match
            || node.kind is Block || node.kind is ChainedCmp),
    ensures
        marks(node) == kid_marks(node, role, width(node)),
{
    lemma_two(node, role);
    assert(marks(node) =~= step_marks(node, role, 0) + step_marks(node, role, 1));
}

/// The marks of a node are its own and those of the nodes that a walk meets below it.
proof fn lemma_parts(node: Node, role: Role)
    ensures
        met_marks(node, role) == own(node, role) + kid_marks(node, role, width(node)),
{
    match node.kind {
        NodeKind::Block { name, params, body } => lemma_parts_of_blocks(node, role),
        NodeKind::Match { subjects, arms } => lemma_parts_of_matches(node, role),
        NodeKind::Apply { func, args } => lemma_parts_of_calls(node, role),
        NodeKind::Fn { params, body } => lemma_parts_of_calls(node, role),
        NodeKind::Arm { lhs, body } => lemma_parts_of_calls(node, role),
        _ => {
            match node.kind {
                NodeKind::Module { exprs } => lemma_parts_of_lists(node, role, exprs@),
                NodeKind::LitSeq { items } => lemma_parts_of_lists(node, role, items@),
                NodeKind::Patterns(items) => lemma_parts_of_lists(node, role, items@),
                NodeKind::StrTempl { children } => lemma_parts_of_lists(node, role, children@),
                NodeKind::StrRawTempl { open, close, children } => lemma_parts_of_lists(
                    node,
                    role,
                    children@,
                ),
                NodeKind::LitRec { items } => lemma_parts_of_special_lists(node, role),
                NodeKind::Pipe(items) => lemma_parts_of_special_lists(node, role),
                NodeKind::ChainedCmp(parts) => lemma_parts_of_special_lists(node, role),
                _ => lemma_parts_of_small(node, role),
            }
            assert(met_marks(node, role) =~= own(node, role) + kid_marks(node, role, width(node)));
        },
    }
}

/// Whether `os` are exactly the coloured things, in the order of the walk, with the marks `ms`;
/// those below the first `n` nodes, or all with the node itself if `n` is `None`.
spec fn covered(node: Node, role: Role, n: Option<int>, os: Seq<Origin>, ms: Seq<Mark>) -> bool {
    &&& os.len() == ms.len()
    &&& forall|k: int|
        0 <= k < os.len() ==> paints(node, role, #[trigger] os[k], ms[k]) && within(os[k], n)
    &&& forall|i: int, j: int|
        #![trigger os[i], os[j]]
        0 <= i < j < os.len() ==> earlier(os[i], os[j])
    &&& forall|o: Origin, m: Mark| #[trigger]
        paints(node, role, o, m) && within(o, n) ==> exists|k: int|
            0 <= k < os.len() && #[trigger] os[k] == o && ms[k] == m
}

spec fn within(o: Origin, n: Option<int>) -> bool {
    match n {
        Some(n) => o.path.len() > 0 && 0 <= o.path[0] < n,
        None => true,
    }
}

spec fn below(i: int, o: Origin) -> Origin {
    Origin { path: seq![i] + o.path, part: o.part }
}

proof fn lemma_below(node: Node, role: Role, i: int, o: Origin, m: Mark)
    requires
        step(node, role, i) is Some,
    ensures
        step(node, role, i) matches Some((k, r)) ==> paints(node, role, below(i, o), m) == paints(
            k,
            r,
            o,
            m,
        ),
        below(i, o).path[0] == i,
        below(i, o).path.skip(1) == o.path,
{
    assert(below(i, o).path.skip(1) =~= o.path);
}

proof fn lemma_kids(node: Node, role: Role, n: int) -> (os: Seq<Origin>)
    requires
        0 <= n,
    ensures
        covered(node, role, Some(n), os, kid_marks(node, role, n)),
    decreases node, 0nat, n,
{
    if n == 0 {
        Seq::empty()
    } else {
        let i = n - 1;
        let prev = lemma_kids(node, role, i);
        let was = kid_marks(node, role, i);
        let ms = kid_marks(node, role, n);
        match step(node, role, i) {
            None => {
                assert(ms =~= was);
                assert forall|o: Origin, m: Mark| #[trigger]
                    paints(node, role, o, m) && within(o, Some(n)) implies exists|k: int|
                    0 <= k < prev.len() && #[trigger] prev[k] == o && ms[k] == m by {
                    assert(o.path[0] != i);
                    assert(within(o, Some(i)));
                }
                prev
            },
            Some((k, r)) => {
                lemma_kid_smaller(node, i);
                let sub = lemma_all(k, r);
                let sms = met_marks(k, r);
                let os = prev + sub.map_values(|o: Origin| below(i, o));
                let a = prev.len() as int;
                assert forall|x: int|
                    0 <= x < os.len() implies paints(node, role, #[trigger] os[x], ms[x]) && within(
                    os[x],
                    Some(n),
                ) by {
                    if x < a {
                        assert(os[x] == prev[x] && ms[x] == was[x]);
                    } else {
                        assert(os[x] == below(i, sub[x - a]) && ms[x] == sms[x - a]);
                        lemma_below(node, role, i, sub[x - a], ms[x]);
                    }
                }
                assert forall|x: int, y: int|
                    #![trigger os[x], os[y]]
                    0 <= x < y < os.len() implies earlier(os[x], os[y]) by {
                    if y < a {
                        assert(os[x] == prev[x] && os[y] == prev[y]);
                    } else if x < a {
                        assert(os[x] == prev[x] && os[y] == below(i, sub[y - a]));
                        assert(within(prev[x], Some(i)));
                        lemma_below(node, role, i, sub[y - a], ms[y]);
                    } else {
                        let (p, q) = (sub[x - a], sub[y - a]);
                        assert(os[x] == below(i, p) && os[y] == below(i, q));
                        lemma_below(node, role, i, p, ms[x]);
                        lemma_below(node, role, i, q, ms[y]);
                        assert(earlier(p, q));
                    }
                }
                assert forall|o: Origin, m: Mark| #[trigger]
                    paints(node, role, o, m) && within(o, Some(n)) implies exists|x: int|
                    0 <= x < os.len() && #[trigger] os[x] == o && ms[x] == m by {
                    if o.path[0] < i {
                        assert(within(o, Some(i)));
                        let x = choose|x: int|
                            0 <= x < prev.len() && #[trigger] prev[x] == o && was[x] == m;
                        assert(os[x] == o && ms[x] == m);
                    } else {
                        let p = Origin { path: o.path.skip(1), part: o.part };
                        assert(o.path =~= seq![i] + p.path);
                        assert(below(i, p) == o);
                        lemma_below(node, role, i, p, m);
                        assert(paints(k, r, p, m) && within(p, None));
                        let x = choose|x: int|
                            0 <= x < sub.len() && #[trigger] sub[x] == p && sms[x] == m;
                        assert(os[a + x] == o && ms[a + x] == m);
                    }
                }
                os
            },
        }
    }
}

proof fn lemma_all(node: Node, role: Role) -> (os: Seq<Origin>)
    ensures
        covered(node, role, None, os, met_marks(node, role)),
    decreases node, 1nat, 0int,
{
    let parts = lemma_own(node, role);
    let mine = own(node, role);
    let n = width(node);
    assert(n >= 0);
    let kids = lemma_kids(node, role, n);
    let theirs = kid_marks(node, role, n);
    lemma_parts(node, role);
    let ms = met_marks(node, role);
    let here = parts.map_values(|part: int| Origin { path: Seq::<int>::empty(), part });
    let os = here + kids;
    let a = here.len() as int;
    assert forall|x: int| 0 <= x < os.len() implies paints(node, role, #[trigger] os[x], ms[x]) by {
        if x < a {
            assert(os[x] == here[x] && ms[x] == mine[x]);
            assert(coloured(node, role, parts[x], mine[x]));
        } else {
            assert(os[x] == kids[x - a] && ms[x] == theirs[x - a]);
        }
    }
    assert forall|x: int, y: int|
        #![trigger os[x], os[y]]
        0 <= x < y < os.len() implies earlier(os[x], os[y]) by {
        if y < a {
            assert(os[x] == here[x] && os[y] == here[y]);
            assert(parts[x] < parts[y]);
        } else if x < a {
            assert(os[x] == here[x] && os[y] == kids[y - a]);
            assert(within(kids[y - a], Some(n)));
        } else {
            assert(os[x] == kids[x - a] && os[y] == kids[y - a]);
        }
    }
    assert forall|o: Origin, m: Mark| #[trigger]
        paints(node, role, o, m) && within(o, None) implies exists|x: int|
        0 <= x < os.len() && #[trigger] os[x] == o && ms[x] == m by {
        if o.path.len() == 0 {
            assert(coloured(node, role, o.part, m));
            let x = choose|x: int|
                0 <= x < parts.len() && #[trigger] parts[x] == o.part && mine[x] == m;
            assert(o.path =~= Seq::<int>::empty());
            assert(os[x] == o && ms[x] == m);
        } else {
            if !(0 <= o.path[0] < n) {
                lemma_kid_range(node, o.path[0]);
            }
            assert(within(o, Some(n)));
            let x = choose|x: int| 0 <= x < kids.len() && #[trigger] kids[x] == o && theirs[x] == m;
            assert(os[a + x] == o && ms[a + x] == m);
        }
    }
    os
}

/// Whether no span that has to be coloured runs backwards.
pub open spec fn spans_run_forward(root: Node) -> bool {
    forall|o: Origin, m: Mark| #[trigger] paints(root, Role::Plain, o, m) ==> 0 <= m.length
}

proof fn lemma_fits(root: Node)
    ensures
        fits(marks(root)) == spans_run_forward(root),
{
    let os = lemma_all(root, Role::Plain);
    let ms = marks(root);
    if spans_run_forward(root) {
        assert forall|k: int| 0 <= k < ms.len() implies 0 <= (#[trigger] ms[k]).length by {
            assert(paints(root, Role::Plain, os[k], ms[k]));
        }
    }
    if fits(ms) {
        assert forall|o: Origin, m: Mark| #[trigger] paints(root, Role::Plain, o, m) implies 0
            <= m.length by {
            assert(within(o, None));
            let k = choose|k: int| 0 <= k < os.len() && #[trigger] os[k] == o && ms[k] == m;
            assert(0 <= ms[k].length);
        }
    }
}

/// A token together with what it colours and its rank in the walk.
struct Tagged {
    token: RawToken,
    origin: Origin,
    rank: int,
}

impl Placed for Tagged {
    closed spec fn place(self) -> (int, int) {
        self.token.place()
    }
}

/// Whether the token `t` colours what `o` stands for.
pub open spec fn is_painted(root: Node, o: Origin, t: RawToken) -> bool {
    exists|m: Mark| #[trigger] paints(root, Role::Plain, o, m) && is_mark(t, m)
}

/// Whether the tokens `toks` colour exactly what has to be coloured in the tree under `root`:
/// token `k` colours `origins[k]`, every coloured thing has its token, no two tokens colour the
/// same thing, and they are in document order, at the same place in the order of a walk from
/// the top.
pub open spec fn colour(toks: Seq<RawToken>, root: Node, origins: Seq<Origin>) -> bool {
    &&& origins.len() == toks.len()
    &&& forall|k: int|
        #![trigger origins[k]]
        0 <= k < toks.len() ==> is_painted(root, origins[k], toks[k])
    &&& forall|o: Origin, m: Mark| #[trigger]
        paints(root, Role::Plain, o, m) ==> exists|k: int|
            0 <= k < toks.len() && #[trigger] origins[k] == o && is_mark(toks[k], m)
    &&& forall|i: int, j: int|
        #![trigger origins[i], origins[j]]
        0 <= i < j < toks.len() ==> origins[i] != origins[j]
    &&& forall|i: int, j: int|
        #![trigger toks[i], toks[j]]
        0 <= i < j < toks.len() ==> toks[i].line < toks[j].line || (toks[i].line == toks[j].line
            && toks[i].col < toks[j].col) || (toks[i].line == toks[j].line && toks[i].col
            == toks[j].col && earlier(origins[i], origins[j]))
}

proof fn lemma_mark(root: Node, o: Origin, m: Mark)
    requires
        paints(root, Role::Plain, o, m),
    ensures
        0 <= m.line <= u32::MAX,
        0 <= m.col <= u32::MAX,
        m.length <= u32::MAX,
{
}

proof fn lemma_not_earlier(a: Seq<int>)
    ensures
        !met_before(a, a),
    decreases a.len(),
{
    if a.len() > 0 {
        lemma_not_earlier(a.skip(1));
    }
}

/// The semantic tokens of a document whose source parses colour exactly what has to be coloured
/// in the tree: every name or group that is called anywhere in it, in arguments as elsewhere,
/// every name that is a stage of a pipe, every record key and every block name.
pub proof fn semantic_tokens_colour_the_tree(
    tokens: Seq<Token>,
    root: Node,
    desugared: Option<Result<Desugared, PassError>>,
) -> (res: (Seq<RawToken>, Seq<Origin>))
    requires
        spans_run_forward(root),
    ensures
        decodes(document_of(tokens, Ok(root), desugared).semantic_tokens, res.0),
        colour(res.0, root, res.1),
{
    let os = lemma_all(root, Role::Plain);
    let ms = marks(root);
    let given = raw(ms);
    let toks = sorted(given);
    lemma_fits(root);
    sorted_is_in_order(given);
    lemma_decodes(toks);
    let origins = lemma_sorted_colours(root, os, ms);
    (toks, origins)
}

spec fn tagged(os: Seq<Origin>, ms: Seq<Mark>) -> Seq<Tagged> {
    Seq::new(ms.len(), |k: int| Tagged { token: raw(ms)[k], origin: os[k], rank: k })
}

proof fn lemma_sorted_colours(root: Node, os: Seq<Origin>, ms: Seq<Mark>) -> (origins: Seq<Origin>)
    requires
        covered(root, Role::Plain, None, os, ms),
        fits(ms),
    ensures
        colour(sorted(raw(ms)), root, origins),
{
    let ts = tagged(os, ms);
    let f = |t: Tagged| t.token;
    let rank = |t: Tagged| t.rank;
    assert(ts.map_values(f) =~= raw(ms));
    sorted_commutes_with_map(ts, f);
    sorted_keeps_len(ts);
    sorted_is_ranked(ts, rank);
    let out = sorted(ts);
    let toks = sorted(raw(ms));
    assert(toks == out.map_values(f));
    let origins = out.map_values(|t: Tagged| t.origin);
    assert forall|k: int| 0 <= k < out.len() implies tag_is_true(root, os, ms, #[trigger] out[k]) by {
        lemma_tag(root, os, ms, k);
    }
    assert forall|k: int|
        #![trigger origins[k]]
        0 <= k < toks.len() implies is_painted(root, origins[k], toks[k]) by {
        let t = out[k];
        assert(tag_is_true(root, os, ms, t));
        assert(paints(root, Role::Plain, origins[k], ms[t.rank]));
    }
    assert forall|o: Origin, m: Mark| #[trigger] paints(root, Role::Plain, o, m) implies exists|
        k: int,
    | 0 <= k < toks.len() && #[trigger] origins[k] == o && is_mark(toks[k], m) by {
        let k = lemma_has_token(root, os, ms, o, m);
        assert(tag_is_true(root, os, ms, out[k]));
        assert(origins[k] == o);
    }
    assert forall|i: int, j: int|
        #![trigger toks[i], toks[j]]
        0 <= i < j < toks.len() implies toks[i].line < toks[j].line || (toks[i].line
        == toks[j].line && toks[i].col < toks[j].col) || (toks[i].line == toks[j].line
        && toks[i].col == toks[j].col && earlier(origins[i], origins[j])) by {
        let (a, b) = (out[i], out[j]);
        assert(tag_is_true(root, os, ms, a) && tag_is_true(root, os, ms, b));
        assert(before(a.place(), b.place()) || rank(a) < rank(b));
        if !before(a.place(), b.place()) {
            assert(earlier(os[a.rank], os[b.rank]));
        }
    }
    assert forall|i: int, j: int|
        #![trigger origins[i], origins[j]]
        0 <= i < j < toks.len() implies origins[i] != origins[j] by {
        let (a, b) = (out[i], out[j]);
        assert(tag_is_true(root, os, ms, a) && tag_is_true(root, os, ms, b));
        assert(before(a.place(), b.place()) || rank(a) < rank(b));
        assert(a.rank != b.rank);
        if a.rank < b.rank {
            assert(earlier(os[a.rank], os[b.rank]));
        } else {
            assert(earlier(os[b.rank], os[a.rank]));
        }
        lemma_not_earlier(origins[i].path);
    }
    origins
}

spec fn tag_is_true(root: Node, os: Seq<Origin>, ms: Seq<Mark>, t: Tagged) -> bool {
    &&& 0 <= t.rank < ms.len()
    &&& t == tagged(os, ms)[t.rank]
    &&& paints(root, Role::Plain, t.origin, ms[t.rank])
    &&& is_mark(t.token, ms[t.rank])
}

proof fn lemma_tag(root: Node, os: Seq<Origin>, ms: Seq<Mark>, k: int)
    requires
        covered(root, Role::Plain, None, os, ms),
        fits(ms),
        0 <= k < sorted(tagged(os, ms)).len(),
    ensures
        tag_is_true(root, os, ms, sorted(tagged(os, ms))[k]),
{
    let ts = tagged(os, ms);
    let out = sorted(ts);
    let t = out[k];
    assert(out.contains(t));
    sorted_keeps_items(ts, t);
    let x = choose|x: int| 0 <= x < ts.len() && ts[x] == t;
    assert(paints(root, Role::Plain, os[x], ms[x]));
    lemma_mark(root, os[x], ms[x]);
    assert(0 <= ms[x].length);
}

proof fn lemma_has_token(root: Node, os: Seq<Origin>, ms: Seq<Mark>, o: Origin, m: Mark) -> (k: int)
    requires
        covered(root, Role::Plain, None, os, ms),
        paints(root, Role::Plain, o, m),
    ensures
        0 <= k < sorted(tagged(os, ms)).len(),
        sorted(tagged(os, ms))[k].origin == o,
        0 <= sorted(tagged(os, ms))[k].rank < ms.len(),
        ms[sorted(tagged(os, ms))[k].rank] == m,
{
    let ts = tagged(os, ms);
    let out = sorted(ts);
    assert(within(o, None));
    let x = choose|x: int| 0 <= x < os.len() && #[trigger] os[x] == o && ms[x] == m;
    assert(ts[x].rank == x);
    assert(ts.contains(ts[x]));
    sorted_keeps_items(ts, ts[x]);
    choose|k: int| 0 <= k < out.len() && out[k] == ts[x]
}

/// A document whose source does not parse has no semantic tokens.
pub proof fn nothing_is_coloured_without_a_tree(
    tokens: Seq<Token>,
    e: PassError,
    desugared: Option<Result<Desugared, PassError>>,
)
    ensures
        document_of(tokens, Err(e), desugared).semantic_tokens.len() == 0,
{
}

/// Whether the tables of a desugared tree fit together: 32 bits can number their rows,
/// identifiers refer to bindings that exist, and a binding of the source outside the module's
/// scope that nothing refers to has a scope that exists.
pub open spec fn tables_fit(d: Desugared) -> bool {
    &&& d.nodes@.len() <= u32::MAX
    &&& d.binds@.len() <= u32::MAX
    &&& d.scopes@.len() <= u32::MAX
    &&& forall|id: int, b: int| #[trigger] refers_to(d, id, b) ==> b < d.binds@.len()
    &&& forall|b: int|
        #![trigger d.binds@[b]]
        0 <= b < d.binds@.len() && d.binds@[b].origin is Ast && d.binds@[b].scope != 0 && (forall|
            id: int,
        | !#[trigger] refers_to(d, id, b)) ==> d.binds@[b].scope < d.scopes@.len()
}

/// Results of the front end make a document if, and only if, no span that has to be coloured
/// runs backwards and, where desugaring is wanted, it was done and its tables fit together. A
/// source that does not parse always makes one.
pub proof fn sound_results_make_a_document(
    parsed: Result<Node, PassError>,
    desugared: Option<Result<Desugared, PassError>>,
)
    ensures
        makes_document(parsed, desugared) <==> (parsed is Err || (spans_run_forward(parsed->Ok_0)
            && (nothing_to_desugar(parsed->Ok_0) || match desugared {
            Some(Ok(d)) => tables_fit(d),
            Some(Err(_)) => true,
            None => false,
        }))),
{
    if let Ok(root) = parsed {
        lemma_fits(root);
        if let Some(Ok(d)) = desugared {
            lemma_tables(d);
        }
    }
}

proof fn lemma_tables(d: Desugared)
    ensures
        d.fits() == tables_fit(d),
{
    let n = d.nodes@.len() as int;
    if tables_fit(d) {
        assert forall|id: int, b: u32| 0 <= id < n && #[trigger] d.refers(id, b) implies b
            < d.binds@.len() by {
            assert(refers_to(d, id, b as int));
        }
        assert forall|b: int|
            0 <= b < d.binds@.len() && #[trigger] d.must_be_used(b) && !d.used(b as u32, n) implies
            d.binds@[b].scope < d.scopes@.len() by {
            assert forall|id: int| !#[trigger] refers_to(d, id, b) by {
                if refers_to(d, id, b) {
                    assert(d.refers(id, b as u32));
                }
            }
            assert(d.binds@[b].origin is Ast);
        }
    }
    if d.fits() {
        assert forall|id: int, b: int| #[trigger] refers_to(d, id, b) implies b
            < d.binds@.len() by {
            assert(d.refers(id, b as u32));
        }
        assert forall|b: int|
            #![trigger d.binds@[b]]
            0 <= b < d.binds@.len() && d.binds@[b].origin is Ast && d.binds@[b].scope != 0 && (
            forall|id: int| !#[trigger] refers_to(d, id, b)) implies d.binds@[b].scope
            < d.scopes@.len() by {
            if d.used(b as u32, n) {
                let id = choose|id: int| 0 <= id < n && #[trigger] d.refers(id, b as u32);
                assert(refers_to(d, id, b));
            }
            assert(d.must_be_used(b));
        }
    }
}

} // verus!
