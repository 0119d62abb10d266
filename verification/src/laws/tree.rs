//! Paths in a syntax tree.
use vstd::prelude::*;
use crate::syntax::{Node, NodeKind};

verus! {

/// Item `i` of a list.
pub open spec fn nth(items: Seq<Node>, i: int) -> Option<Node> {
    if 0 <= i < items.len() {
        Some(items[i])
    } else {
        None
    }
}

/// The node right below `node` with number `i`, counted in the order of the source form: what
/// is called before its arguments, the name of a block before its parameters and these before
/// its body, the left side of an arm before its body. Operators take a number of their own.
pub open spec fn kid(node: Node, i: int) -> Option<Node> {
    match node.kind {
        NodeKind::Module { exprs } => nth(exprs@, i),
        NodeKind::LitSeq { items } => nth(items@, i),
        NodeKind::LitRec { items } => nth(items@, i),
        NodeKind::Patterns(items) => nth(items@, i),
        NodeKind::Pipe(items) => nth(items@, i),
        NodeKind::StrTempl { children } => nth(children@, i),
        NodeKind::StrRawTempl { open, close, children } => nth(children@, i),
        NodeKind::Apply { func, args } => if i == 0 {
            Some(*func)
        } else {
            nth(args@, i - 1)
        },
        NodeKind::InfixOp { lhs, rhs } => nth(seq![*lhs, *rhs], i),
        NodeKind::Bind { lhs, rhs } => nth(seq![*lhs, *rhs], i),
        NodeKind::BindRight { lhs, rhs } => nth(seq![*lhs, *rhs], i),
        NodeKind::Member { lhs, rhs } => nth(seq![*lhs, *rhs], i),
        NodeKind::UnaryOp { operand } => nth(seq![*operand], i),
        NodeKind::Group { inner } => nth(seq![*inner], i),
        NodeKind::Try(inner) => nth(seq![*inner], i),
        NodeKind::Spread { inner: Some(inner) } => nth(seq![*inner], i),
        NodeKind::Fn { params, body } => if i == 0 {
            Some(*params)
        } else {
            nth(body@, i - 1)
        },
        NodeKind::Match { subjects, arms } => if i < subjects@.len() {
            nth(subjects@, i)
        } else {
            nth(arms@, i - subjects@.len())
        },
        NodeKind::Arm { lhs, body } => if i == 0 {
            Some(*lhs)
        } else {
            nth(body@, i - 1)
        },
        NodeKind::Block { name, params, body } => if i == 0 {
            Some(*name)
        } else if i == 1 {
            Some(*params)
        } else {
            nth(body@, i - 2)
        },
        NodeKind::ChainedCmp(parts) => if 0 <= i < parts@.len() && parts@[i] is Operand {
            Some(parts@[i]->Operand_0)
        } else {
            None
        },
        _ => None,
    }
}

/// A number above those of all nodes right below `node`.
pub open spec fn width(node: Node) -> int {
    match node.kind {
        NodeKind::Module { exprs } => exprs@.len() as int,
        NodeKind::LitSeq { items } => items@.len() as int,
        NodeKind::LitRec { items } => items@.len() as int,
        NodeKind::Patterns(items) => items@.len() as int,
        NodeKind::Pipe(items) => items@.len() as int,
        NodeKind::StrTempl { children } => children@.len() as int,
        NodeKind::StrRawTempl { open, close, children } => children@.len() as int,
        NodeKind::Apply { func, args } => (args@.len() + 1) as int,
        NodeKind::Fn { params, body } => (body@.len() + 1) as int,
        NodeKind::Arm { lhs, body } => (body@.len() + 1) as int,
        NodeKind::Match { subjects, arms } => (subjects@.len() + arms@.len()) as int,
        NodeKind::Block { name, params, body } => (body@.len() + 2) as int,
        NodeKind::ChainedCmp(parts) => parts@.len() as int,
        _ => 2,
    }
}

/// The node that a path leads to from `root`, if it leads to one.
pub open spec fn reached(root: Node, path: Seq<int>) -> Option<Node>
    decreases path.len(),
{
    if path.len() == 0 {
        Some(root)
    } else {
        match kid(root, path[0]) {
            Some(k) => reached(k, path.skip(1)),
            None => None,
        }
    }
}

/// Whether a walk from the top meets the end of path `a` before that of path `b`.
pub open spec fn met_before(a: Seq<int>, b: Seq<int>) -> bool
    decreases a.len(),
{
    if b.len() == 0 {
        false
    } else if a.len() == 0 {
        true
    } else {
        a[0] < b[0] || (a[0] == b[0] && met_before(a.skip(1), b.skip(1)))
    }
}

/// The numbers of the nodes right below `node` start at 0 and stay below its width.
pub(crate) proof fn lemma_kid_range(node: Node, i: int)
    requires
        i < 0 || i >= width(node),
    ensures
        kid(node, i) is None,
{
}

/// A node right below `node` is a smaller tree.
pub(crate) proof fn lemma_kid_smaller(node: Node, i: int)
    requires
        kid(node, i) is Some,
    ensures
        decreases_to!(node => kid(node, i)->0),
{
    let k = kid(node, i)->0;
    match node.kind {
        NodeKind::Module { exprs } => {
            assert(decreases_to!(exprs@ => exprs@[i]));
        },
        NodeKind::LitSeq { items } => {
            assert(decreases_to!(items@ => items@[i]));
        },
        NodeKind::LitRec { items } => {
            assert(decreases_to!(items@ => items@[i]));
        },
        NodeKind::Patterns(items) => {
            assert(decreases_to!(items@ => items@[i]));
        },
        NodeKind::Pipe(items) => {
            assert(decreases_to!(items@ => items@[i]));
        },
        NodeKind::StrTempl { children } => {
            assert(decreases_to!(children@ => children@[i]));
        },
        NodeKind::StrRawTempl { open, close, children } => {
            assert(decreases_to!(children@ => children@[i]));
        },
        NodeKind::Apply { func, args } => {
            if i > 0 {
                assert(decreases_to!(args@ => args@[i - 1]));
            }
        },
        NodeKind::Fn { params, body } => {
            if i > 0 {
                assert(decreases_to!(body@ => body@[i - 1]));
            }
        },
        NodeKind::Match { subjects, arms } => {
            if i < subjects@.len() {
                assert(decreases_to!(subjects@ => subjects@[i]));
            } else {
                assert(decreases_to!(arms@ => arms@[i - subjects@.len()]));
            }
        },
        NodeKind::Arm { lhs, body } => {
            if i > 0 {
                assert(decreases_to!(body@ => body@[i - 1]));
            }
        },
        NodeKind::Block { name, params, body } => {
            if i > 1 {
                assert(decreases_to!(body@ => body@[i - 2]));
            }
        },
        NodeKind::ChainedCmp(parts) => {
            assert(decreases_to!(parts@ => parts@[i]));
            assert(decreases_to!(parts@[i] => parts@[i]->Operand_0));
        },
        _ => {},
    }
}

} // verus!
