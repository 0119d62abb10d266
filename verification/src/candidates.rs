//! The blocks of a syntax tree that may take part in a source-map pair.
use vstd::prelude::*;
use crate::sort::{before, in_order, Placed, ReadPlace};
use crate::syntax::{CmpPart, Node, NodeKind};
use crate::text::same_text;

verus! {

/// Whether `node` is a block with the name `\u{192}ink`.
pub open spec fn is_fink_block(node: Node) -> bool {
    match node.kind {
        NodeKind::Block { name, params, body } => match name.kind {
            NodeKind::Ident(s) => s@ == "\u{192}ink"@,
            _ => false,
        },
        _ => false,
    }
}

/// Whether `node` is a raw template that opens a block.
pub open spec fn is_raw_block(node: Node) -> bool {
    match node.kind {
        NodeKind::StrRawTempl { open, close, children } => open.src@ == "\":"@,
        _ => false,
    }
}

/// Whether `node` is a block that may take part in a pair.
pub open spec fn is_candidate(node: Node) -> bool {
    is_fink_block(node) || is_raw_block(node)
}

/// The nodes of the tree under `node`, in the order of a walk from the top.
pub open spec fn tree_nodes(node: Node) -> Seq<Node>
    decreases node, 1nat,
{
    seq![node] + nodes_below(node)
}

/// The nodes of the tree under `node` without `node` itself.
pub open spec fn nodes_below(node: Node) -> Seq<Node>
    decreases node, 0nat,
{
    match node.kind {
        NodeKind::Block { name, params, body } => tree_nodes(*name) + tree_nodes(*params)
            + forest_nodes(body@),
        NodeKind::StrRawTempl { open, close, children } => forest_nodes(children@),
        NodeKind::StrTempl { children } => forest_nodes(children@),
        NodeKind::Module { exprs } => forest_nodes(exprs@),
        NodeKind::LitSeq { items } => forest_nodes(items@),
        NodeKind::LitRec { items } => forest_nodes(items@),
        NodeKind::Patterns(children) => forest_nodes(children@),
        NodeKind::Pipe(children) => forest_nodes(children@),
        NodeKind::Apply { func, args } => tree_nodes(*func) + forest_nodes(args@),
        NodeKind::Fn { params, body } => tree_nodes(*params) + forest_nodes(body@),
        NodeKind::Match { subjects, arms } => forest_nodes(subjects@) + forest_nodes(arms@),
        NodeKind::Arm { lhs, body } => tree_nodes(*lhs) + forest_nodes(body@),
        NodeKind::InfixOp { lhs, rhs } => tree_nodes(*lhs) + tree_nodes(*rhs),
        NodeKind::Bind { lhs, rhs } => tree_nodes(*lhs) + tree_nodes(*rhs),
        NodeKind::BindRight { lhs, rhs } => tree_nodes(*lhs) + tree_nodes(*rhs),
        NodeKind::Member { lhs, rhs } => tree_nodes(*lhs) + tree_nodes(*rhs),
        NodeKind::UnaryOp { operand } => tree_nodes(*operand),
        NodeKind::Group { inner } => tree_nodes(*inner),
        NodeKind::Try(inner) => tree_nodes(*inner),
        NodeKind::Spread { inner: Some(inner) } => tree_nodes(*inner),
        NodeKind::ChainedCmp(parts) => operand_nodes(parts@),
        _ => Seq::empty(),
    }
}

/// The nodes of several trees, one tree after the other.
pub open spec fn forest_nodes(nodes: Seq<Node>) -> Seq<Node>
    decreases nodes, 0nat,
{
    if nodes.len() == 0 {
        Seq::empty()
    } else {
        forest_nodes(nodes.drop_last()) + tree_nodes(nodes.last())
    }
}

/// The nodes of the operands of a chained comparison.
pub open spec fn operand_nodes(parts: Seq<CmpPart>) -> Seq<Node>
    decreases parts, 0nat,
{
    if parts.len() == 0 {
        Seq::empty()
    } else {
        operand_nodes(parts.drop_last()) + (match parts.last() {
            CmpPart::Operand(node) => tree_nodes(node),
            CmpPart::Operator => Seq::empty(),
        })
    }
}

/// The candidates among `nodes`, in order.
pub open spec fn candidates_among(nodes: Seq<Node>) -> Seq<Node> {
    nodes.filter(|n: Node| is_candidate(n))
}

/// All candidates in the tree under `root`, in the order of the walk.
pub open spec fn candidates(root: Node) -> Seq<Node> {
    candidates_among(tree_nodes(root))
}

broadcast proof fn lemma_among_concat(a: Seq<Node>, b: Seq<Node>)
    ensures
        #[trigger] candidates_among(a + b) == candidates_among(a) + candidates_among(b),
{
    Seq::filter_distributes_over_add(a, b, |n: Node| is_candidate(n));
}

proof fn lemma_among_one(node: Node)
    ensures
        candidates_among(seq![node]) == (if is_candidate(node) {
            seq![node]
        } else {
            Seq::empty()
        }),
{
    reveal_with_fuel(Seq::filter, 2);
    assert(seq![node].drop_last() =~= Seq::<Node>::empty());
    assert(candidates_among(seq![node]) =~= (if is_candidate(node) {
        seq![node]
    } else {
        Seq::empty()
    }));
}

proof fn lemma_among_none()
    ensures
        candidates_among(Seq::empty()) == Seq::<Node>::empty(),
{
    reveal(Seq::filter);
}

/// The nodes behind the references.
pub open spec fn targets(refs: Seq<&Node>) -> Seq<Node> {
    refs.map_values(|r: &Node| *r)
}

/// A node stands in the document where its text starts.
impl Placed for Node {
    open spec fn place(self) -> (int, int) {
        (self.loc.start.idx as int, 0)
    }
}

impl<'a> Placed for &'a Node {
    open spec fn place(self) -> (int, int) {
        (self.loc.start.idx as int, 0)
    }
}

impl<'a> ReadPlace for &'a Node {
    fn read_place(&self) -> (p: (u32, u32)) {
        (self.loc.start.idx, 0)
    }
}

proof fn lemma_targets_push(refs: Seq<&Node>, node: &Node)
    ensures
        targets(refs.push(node)) == targets(refs).push(*node),
{
    assert(targets(refs.push(node)) =~= targets(refs).push(*node));
}

fn candidate(node: &Node) -> (yes: bool)
    ensures
        yes == is_candidate(*node),
{
    match &node.kind {
        NodeKind::Block { name, params: _, body: _ } => match &name.kind {
            NodeKind::Ident(s) => same_text(s.as_str(), "\u{192}ink"),
            _ => false,
        },
        NodeKind::StrRawTempl { open, close: _, children: _ } => same_text(
            open.src.as_str(),
            "\":",
        ),
        _ => false,
    }
}

/// Gathers the candidates in the tree under `node`.
pub fn collect_sm_candidates<'a>(node: &'a Node, out: &mut Vec<&'a Node>)
    ensures
        targets(final(out)@) == targets(old(out)@) + candidates(*node),
    decreases node, 1nat,
{
    let ghost was = targets(out@);
    proof {
        lemma_among_one(*node);
        lemma_among_concat(seq![*node], nodes_below(*node));
        lemma_targets_push(out@, node);
    }
    if candidate(node) {
        out.push(node);
    }
    assert(targets(out@) =~= was + candidates_among(seq![*node]));
    collect_below(node, out);
    assert(targets(out@) =~= was + candidates(*node));
}

fn collect_below<'a>(node: &'a Node, out: &mut Vec<&'a Node>)
    ensures
        targets(final(out)@) == targets(old(out)@) + candidates_among(nodes_below(*node)),
    decreases node, 0nat,
{
    broadcast use lemma_among_concat;

    let ghost was = targets(out@);
    proof {
        lemma_among_none();
    }
    match &node.kind {
        NodeKind::Block { name, params, body } => {
            collect_sm_candidates(name, out);
            collect_sm_candidates(params, out);
            collect_all(body, out);
        },
        NodeKind::StrRawTempl { open: _, close: _, children } => collect_all(children, out),
        NodeKind::Module { exprs } => collect_all(exprs, out),
        NodeKind::LitSeq { items } => collect_all(items, out),
        NodeKind::LitRec { items } => collect_all(items, out),
        NodeKind::Patterns(children) => collect_all(children, out),
        NodeKind::Apply { func, args } => {
            collect_sm_candidates(func, out);
            collect_all(args, out);
        },
        NodeKind::Pipe(children) => collect_all(children, out),
        NodeKind::Fn { params, body } => {
            collect_sm_candidates(params, out);
            collect_all(body, out);
        },
        NodeKind::InfixOp { lhs, rhs } => {
            collect_sm_candidates(lhs, out);
            collect_sm_candidates(rhs, out);
        },
        NodeKind::Bind { lhs, rhs } => {
            collect_sm_candidates(lhs, out);
            collect_sm_candidates(rhs, out);
        },
        NodeKind::BindRight { lhs, rhs } => {
            collect_sm_candidates(lhs, out);
            collect_sm_candidates(rhs, out);
        },
        NodeKind::Member { lhs, rhs } => {
            collect_sm_candidates(lhs, out);
            collect_sm_candidates(rhs, out);
        },
        NodeKind::UnaryOp { operand } => collect_sm_candidates(operand, out),
        NodeKind::Group { inner } => collect_sm_candidates(inner, out),
        NodeKind::Try(inner) => collect_sm_candidates(inner, out),
        NodeKind::Spread { inner: Some(inner) } => collect_sm_candidates(inner, out),
        NodeKind::StrTempl { children } => collect_all(children, out),
        NodeKind::Match { subjects, arms } => {
            collect_all(subjects, out);
            collect_all(arms, out);
        },
        NodeKind::Arm { lhs, body } => {
            collect_sm_candidates(lhs, out);
            collect_all(body, out);
        },
        NodeKind::ChainedCmp(parts) => collect_operands(parts, out),
        _ => {},
    }
    assert(targets(out@) =~= was + candidates_among(nodes_below(*node)));
}

fn collect_all<'a>(nodes: &'a Vec<Node>, out: &mut Vec<&'a Node>)
    ensures
        targets(final(out)@) == targets(old(out)@) + candidates_among(forest_nodes(nodes@)),
    decreases nodes, 0nat,
{
    let ghost was = targets(out@);
    proof {
        lemma_among_none();
    }
    for i in 0..nodes.len()
        invariant
            targets(out@) =~= was + candidates_among(forest_nodes(nodes@.take(i as int))),
    {
        proof {
            broadcast use lemma_among_concat;

            lemma_among_none();
            assert(nodes@.take(i + 1).drop_last() =~= nodes@.take(i as int));
        }
        collect_sm_candidates(&nodes[i], out);
    }
    assert(nodes@.take(nodes.len() as int) =~= nodes@);
}

fn collect_operands<'a>(parts: &'a Vec<CmpPart>, out: &mut Vec<&'a Node>)
    ensures
        targets(final(out)@) == targets(old(out)@) + candidates_among(operand_nodes(parts@)),
    decreases parts, 0nat,
{
    let ghost was = targets(out@);
    proof {
        lemma_among_none();
    }
    for i in 0..parts.len()
        invariant
            targets(out@) =~= was + candidates_among(operand_nodes(parts@.take(i as int))),
    {
        proof {
            broadcast use lemma_among_concat;

            lemma_among_none();
            assert(parts@.take(i + 1).drop_last() =~= parts@.take(i as int));
        }
        match &parts[i] {
            CmpPart::Operand(node) => collect_sm_candidates(node, out),
            CmpPart::Operator => {},
        }
    }
    assert(parts@.take(parts.len() as int) =~= parts@);
}

/// Every block of the tree that may take part in a pair is a candidate, and nothing else is.
pub proof fn candidates_are_the_blocks(root: Node, node: Node)
    ensures
        candidates(root).contains(node) <==> tree_nodes(root).contains(node) && is_candidate(node),
{
    let pred = |n: Node| is_candidate(n);
    let all = tree_nodes(root);
    if candidates(root).contains(node) {
        let i = choose|i: int| 0 <= i < candidates(root).len() && candidates(root)[i] == node;
        all.lemma_filter_pred(pred, i);
        all.lemma_filter_contains_rev(pred, node);
    }
    if all.contains(node) && is_candidate(node) {
        let i = choose|i: int| 0 <= i < all.len() && all[i] == node;
        all.lemma_filter_contains(pred, i);
    }
}

proof fn lemma_among_in_order(nodes: Seq<Node>)
    requires
        in_order(nodes),
    ensures
        in_order(candidates_among(nodes)),
    decreases nodes.len(),
{
    reveal(Seq::filter);
    if nodes.len() > 0 {
        let pred = |n: Node| is_candidate(n);
        let init = nodes.drop_last();
        let found = candidates_among(init);
        assert(in_order(init)) by {
            assert forall|i: int, j: int|
                #![trigger init[i], init[j]]
                0 <= i < j < init.len() implies !before(init[j].place(), init[i].place()) by {
                assert(init[i] == nodes[i] && init[j] == nodes[j]);
            }
        }
        lemma_among_in_order(init);
        let all = candidates_among(nodes);
        assert forall|i: int, j: int|
            #![trigger all[i], all[j]]
            0 <= i < j < all.len() implies !before(all[j].place(), all[i].place()) by {
            assert(all[i] == found[i]);
            if j < found.len() {
                assert(all[j] == found[j]);
            } else {
                init.lemma_filter_contains_rev(pred, found[i]);
                let k = choose|k: int| 0 <= k < init.len() && init[k] == found[i];
                assert(nodes[k] == found[i]);
                assert(nodes[nodes.len() - 1] == all[j]);
            }
        }
    }
}

/// Where a walk from the top meets the nodes in document order, so that no node starts in
/// front of the node that holds it or of an earlier sibling, the candidates come in document
/// order too, an enclosing one before those inside it.
pub proof fn candidates_are_in_document_order(root: Node)
    requires
        in_order(tree_nodes(root)),
    ensures
        in_order(candidates(root)),
{
    lemma_among_in_order(tree_nodes(root));
}

} // verus!
