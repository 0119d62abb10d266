//! Laws of the source maps.
use vstd::prelude::*;
use crate::blockmap::{cursor, lemma_cells_bound, place_at, MapModel};
use crate::bytes::{bytes_of, lemma_text_pieces, text_between};
use crate::candidates::{
    candidates, candidates_among, forest_nodes, is_candidate, nodes_below, operand_nodes,
    tree_nodes,
};
use crate::json::{Entry, Json};
use crate::laws::{
    has, lemma_lists_next, lemma_lists_none, lemma_reads_as, lists_all, reads_as, size, with_next,
};
use crate::laws::blocks::{
    between_characters, block_bytes_stand_in_the_document, blocks_are_named_or_raw,
    blocks_fit_between_characters, carries_map, has_bytes, is_named_block, is_raw_text, maps_to,
    payload_is_what_the_comment_carries,
};
use crate::laws::tree::{kid, lemma_kid_range, lemma_kid_smaller, met_before, reached, width};
use crate::sm::{
    block_nodes, blocks, blocks_fit, group_json, groups, is_pair, mapping_json, mapping_list,
    payloads, payloads_of, range_json, report, report_text, spans_of, Mapping, SourceMap,
};
use crate::smblock::{
    block_fits, block_of, block_start, block_strip, block_text, lemma_split_prefix, SmModel,
};
use crate::smtext::block_content;
use crate::sort::{
    before, sorted, sorted_commutes_with_map, sorted_is_ranked, sorted_keeps_items,
    sorted_keeps_len, Placed,
};
use crate::syntax::{CmpPart, Node, NodeKind, PassError};

verus! {

/// Whether `node` may take part in a pair: a block named `\u{192}ink`, or a raw template that
/// opens a block.
pub open spec fn takes_part(node: Node) -> bool {
    ||| node.kind is Block && node.kind->name.kind is Ident && node.kind->name.kind->Ident_0@
        == "\u{192}ink"@
    ||| node.kind is StrRawTempl && node.kind->open.src@ == "\":"@
}

spec fn kid_nodes(node: Node, n: int) -> Seq<Node>
    decreases n,
{
    if n <= 0 {
        Seq::empty()
    } else {
        kid_nodes(node, n - 1) + (match kid(node, n - 1) {
            Some(k) => tree_nodes(k),
            None => Seq::empty(),
        })
    }
}

proof fn lemma_list(node: Node, off: int, items: Seq<Node>, n: int)
    requires
        0 <= off,
        0 <= n <= items.len(),
        forall|j: int|
            #![trigger items[j]]
            0 <= j < items.len() ==> kid(node, off + j) == Some(items[j]),
    ensures
        kid_nodes(node, off + n) == kid_nodes(node, off) + forest_nodes(items.take(n)),
    decreases n,
{
    if n == 0 {
        assert(kid_nodes(node, off) + forest_nodes(items.take(0)) =~= kid_nodes(node, off));
    } else {
        lemma_list(node, off, items, n - 1);
        assert(items.take(n).drop_last() =~= items.take(n - 1));
        assert(items[n - 1] == items.take(n).last());
        assert(kid(node, off + n - 1) == Some(items[n - 1]));
        assert(kid_nodes(node, off + n) =~= kid_nodes(node, off) + forest_nodes(items.take(n)));
    }
}

proof fn lemma_whole_list(node: Node, off: int, items: Seq<Node>)
    requires
        0 <= off,
        forall|j: int|
            #![trigger items[j]]
            0 <= j < items.len() ==> kid(node, off + j) == Some(items[j]),
    ensures
        kid_nodes(node, off + items.len()) == kid_nodes(node, off) + forest_nodes(items),
{
    lemma_list(node, off, items, items.len() as int);
    assert(items.take(items.len() as int) =~= items);
}

proof fn lemma_only_list(node: Node, items: Seq<Node>)
    requires
        nodes_below(node) == forest_nodes(items),
        width(node) == items.len(),
        forall|j: int|
            #![trigger items[j]]
            0 <= j < items.len() ==> kid(node, j) == Some(items[j]),
    ensures
        nodes_below(node) == kid_nodes(node, width(node)),
{
    lemma_whole_list(node, 0, items);
    assert(kid_nodes(node, 0) + forest_nodes(items) =~= forest_nodes(items));
}

proof fn lemma_behind_one(node: Node, first: Node, items: Seq<Node>)
    requires
        nodes_below(node) == tree_nodes(first) + forest_nodes(items),
        width(node) == items.len() + 1,
        kid(node, 0) == Some(first),
        forall|j: int|
            #![trigger items[j]]
            0 <= j < items.len() ==> kid(node, 1 + j) == Some(items[j]),
    ensures
        nodes_below(node) == kid_nodes(node, width(node)),
{
    reveal_with_fuel(kid_nodes, 2);
    assert(kid_nodes(node, 1) =~= tree_nodes(first));
    lemma_whole_list(node, 1, items);
}

proof fn lemma_two(node: Node)
    requires
        width(node) == 2,
    ensures
        kid_nodes(node, 2) == (match kid(node, 0) {
            Some(k) => tree_nodes(k),
            None => Seq::empty(),
        }) + (match kid(node, 1) {
            Some(k) => tree_nodes(k),
            None => Seq::empty(),
        }),
{
    reveal_with_fuel(kid_nodes, 3);
    assert(kid_nodes(node, 2) =~= (match kid(node, 0) {
        Some(k) => tree_nodes(k),
        None => Seq::empty(),
    }) + (match kid(node, 1) {
        Some(k) => tree_nodes(k),
        None => Seq::empty(),
    }));
}

proof fn lemma_operands(node: Node, parts: Seq<CmpPart>, n: int)
    requires
        0 <= n <= parts.len(),
        forall|j: int|
            #![trigger parts[j]]
            0 <= j < parts.len() ==> kid(node, j) == (match parts[j] {
                CmpPart::Operand(k) => Some(k),
                CmpPart::Operator => None,
            }),
    ensures
        kid_nodes(node, n) == operand_nodes(parts.take(n)),
    decreases n,
{
    if n > 0 {
        lemma_operands(node, parts, n - 1);
        assert(parts.take(n).drop_last() =~= parts.take(n - 1));
        assert(parts[n - 1] == parts.take(n).last());
        assert(kid_nodes(node, n) =~= operand_nodes(parts.take(n)));
    }
}

proof fn lemma_block_below(node: Node)
    requires
        node.kind is Block || node.kind is Match,
    ensures
        nodes_below(node) == kid_nodes(node, width(node)),
{
    match node.kind {
        NodeKind::Block { name, params, body } => {
            reveal_with_fuel(kid_nodes, 3);
            assert(kid_nodes(node, 2) =~= tree_nodes(*name) + tree_nodes(*params));
            lemma_whole_list(node, 2, body@);
        },
        NodeKind::Match { subjects, arms } => {
            lemma_whole_list(node, 0, subjects@);
            assert(kid_nodes(node, 0) + forest_nodes(subjects@) =~= forest_nodes(subjects@));
            lemma_whole_list(node, subjects@.len() as int, arms@);
        },
        _ => {},
    }
}

proof fn lemma_below(node: Node)
    ensures
        nodes_below(node) == kid_nodes(node, width(node)),
{
    match node.kind {
        NodeKind::Module { exprs } => lemma_only_list(node, exprs@),
        NodeKind::LitSeq { items } => lemma_only_list(node, items@),
        NodeKind::LitRec { items } => lemma_only_list(node, items@),
        NodeKind::Patterns(items) => lemma_only_list(node, items@),
        NodeKind::Pipe(items) => lemma_only_list(node, items@),
        NodeKind::StrTempl { children } => lemma_only_list(node, children@),
        NodeKind::StrRawTempl { open, close, children } => lemma_only_list(node, children@),
        NodeKind::Apply { func, args } => lemma_behind_one(node, *func, args@),
        NodeKind::Fn { params, body } => lemma_behind_one(node, *params, body@),
        NodeKind::Arm { lhs, body } => lemma_behind_one(node, *lhs, body@),
        NodeKind::Block { name, params, body } => lemma_block_below(node),
        NodeKind::Match { subjects, arms } => lemma_block_below(node),
        NodeKind::ChainedCmp(parts) => {
            lemma_operands(node, parts@, parts@.len() as int);
            assert(parts@.take(parts@.len() as int) =~= parts@);
        },
        _ => {
            lemma_two(node);
            assert(nodes_below(node) =~= kid_nodes(node, 2));
        },
    }
}

spec fn starts_in(path: Seq<int>, n: Option<int>) -> bool {
    match n {
        Some(n) => path.len() > 0 && 0 <= path[0] < n,
        None => true,
    }
}

/// Whether `ps` are the paths to the nodes `ns` that may take part, in the order of the walk.
spec fn found(node: Node, n: Option<int>, ps: Seq<Seq<int>>, ns: Seq<Node>) -> bool {
    &&& ps.len() == ns.len()
    &&& forall|k: int|
        0 <= k < ps.len() ==> reached(node, #[trigger] ps[k]) == Some(ns[k]) && takes_part(ns[k])
            && starts_in(ps[k], n)
    &&& forall|i: int, j: int|
        #![trigger ps[i], ps[j]]
        0 <= i < j < ps.len() ==> met_before(ps[i], ps[j])
    &&& forall|path: Seq<int>|
        (#[trigger] reached(node, path)) is Some && takes_part(reached(node, path)->0) && starts_in(
            path,
            n,
        ) ==> ps.contains(path)
}

proof fn lemma_among_concat(a: Seq<Node>, b: Seq<Node>)
    ensures
        candidates_among(a + b) == candidates_among(a) + candidates_among(b),
{
    Seq::filter_distributes_over_add(a, b, |n: Node| is_candidate(n));
}

proof fn lemma_among_one(node: Node)
    ensures
        candidates_among(seq![node]) == (if takes_part(node) {
            seq![node]
        } else {
            Seq::empty()
        }),
{
    reveal_with_fuel(Seq::filter, 2);
    assert(seq![node].drop_last() =~= Seq::<Node>::empty());
    assert(is_candidate(node) == takes_part(node));
    assert(candidates_among(seq![node]) =~= (if takes_part(node) {
        seq![node]
    } else {
        Seq::empty()
    }));
}

proof fn lemma_put_below(node: Node, i: int, k: Node, p: Seq<int>)
    requires
        kid(node, i) == Some(k),
    ensures
        reached(node, seq![i] + p) == reached(k, p),
        (seq![i] + p)[0] == i,
        (seq![i] + p).skip(1) == p,
{
    assert((seq![i] + p).skip(1) =~= p);
}

proof fn lemma_found_below(node: Node, n: int) -> (ps: Seq<Seq<int>>)
    requires
        0 <= n,
    ensures
        found(node, Some(n), ps, candidates_among(kid_nodes(node, n))),
    decreases node, 0nat, n,
{
    reveal(Seq::filter);
    if n == 0 {
        Seq::empty()
    } else {
        let i = n - 1;
        let prev = lemma_found_below(node, i);
        let was = candidates_among(kid_nodes(node, i));
        let ns = candidates_among(kid_nodes(node, n));
        match kid(node, i) {
            None => {
                assert(kid_nodes(node, n) =~= kid_nodes(node, i));
                assert forall|path: Seq<int>|
                    (#[trigger] reached(node, path)) is Some && takes_part(reached(node, path)->0)
                        && starts_in(path, Some(n)) implies prev.contains(path) by {
                    assert(path[0] != i);
                    assert(starts_in(path, Some(i)));
                }
                prev
            },
            Some(k) => {
                lemma_kid_smaller(node, i);
                let sub = lemma_found(k);
                let sns = candidates_among(tree_nodes(k));
                lemma_among_concat(kid_nodes(node, i), tree_nodes(k));
                let ps = prev + sub.map_values(|p: Seq<int>| seq![i] + p);
                let a = prev.len() as int;
                assert forall|x: int| 0 <= x < ps.len() implies reached(node, #[trigger] ps[x])
                    == Some(ns[x]) && takes_part(ns[x]) && starts_in(ps[x], Some(n)) by {
                    if x < a {
                        assert(ps[x] == prev[x] && ns[x] == was[x]);
                    } else {
                        assert(ps[x] == seq![i] + sub[x - a] && ns[x] == sns[x - a]);
                        lemma_put_below(node, i, k, sub[x - a]);
                    }
                }
                assert forall|x: int, y: int|
                    #![trigger ps[x], ps[y]]
                    0 <= x < y < ps.len() implies met_before(ps[x], ps[y]) by {
                    if y < a {
                        assert(ps[x] == prev[x] && ps[y] == prev[y]);
                    } else if x < a {
                        assert(ps[x] == prev[x] && ps[y] == seq![i] + sub[y - a]);
                        assert(starts_in(prev[x], Some(i)));
                        lemma_put_below(node, i, k, sub[y - a]);
                    } else {
                        assert(ps[x] == seq![i] + sub[x - a] && ps[y] == seq![i] + sub[y - a]);
                        lemma_put_below(node, i, k, sub[x - a]);
                        lemma_put_below(node, i, k, sub[y - a]);
                        assert(met_before(sub[x - a], sub[y - a]));
                    }
                }
                assert forall|path: Seq<int>|
                    (#[trigger] reached(node, path)) is Some && takes_part(reached(node, path)->0)
                        && starts_in(path, Some(n)) implies ps.contains(path) by {
                    if path[0] < i {
                        assert(starts_in(path, Some(i)));
                        assert(prev.contains(path));
                        let x = choose|x: int| 0 <= x < prev.len() && prev[x] == path;
                        assert(ps[x] == path);
                    } else {
                        let p = path.skip(1);
                        assert(path =~= seq![i] + p);
                        lemma_put_below(node, i, k, p);
                        assert(reached(k, p) is Some && starts_in(p, None));
                        assert(sub.contains(p));
                        let x = choose|x: int| 0 <= x < sub.len() && sub[x] == p;
                        assert(ps[a + x] == path);
                    }
                }
                ps
            },
        }
    }
}

proof fn lemma_found(node: Node) -> (ps: Seq<Seq<int>>)
    ensures
        found(node, None, ps, candidates_among(tree_nodes(node))),
    decreases node, 1nat, 0int,
{
    let n = width(node);
    assert(n >= 0);
    let kids = lemma_found_below(node, n);
    let theirs = candidates_among(kid_nodes(node, n));
    lemma_below(node);
    lemma_among_one(node);
    lemma_among_concat(seq![node], kid_nodes(node, n));
    let ns = candidates_among(tree_nodes(node));
    let here = if takes_part(node) {
        seq![Seq::<int>::empty()]
    } else {
        Seq::empty()
    };
    let ps = here + kids;
    let a = here.len() as int;
    assert forall|x: int| 0 <= x < ps.len() implies reached(node, #[trigger] ps[x]) == Some(ns[x])
        && takes_part(ns[x]) by {
        if x >= a {
            assert(ps[x] == kids[x - a] && ns[x] == theirs[x - a]);
        }
    }
    assert forall|x: int, y: int|
        #![trigger ps[x], ps[y]]
        0 <= x < y < ps.len() implies met_before(ps[x], ps[y]) by {
        assert(ps[y] == kids[y - a]);
        assert(starts_in(kids[y - a], Some(n)));
        if x >= a {
            assert(ps[x] == kids[x - a]);
        }
    }
    assert forall|path: Seq<int>|
        (#[trigger] reached(node, path)) is Some && takes_part(reached(node, path)->0) && starts_in(
            path,
            None,
        ) implies ps.contains(path) by {
        if path.len() == 0 {
            assert(path =~= Seq::<int>::empty());
            assert(ps[0] == path);
        } else {
            if !(0 <= path[0] < n) {
                lemma_kid_range(node, path[0]);
            }
            assert(starts_in(path, Some(n)));
            assert(kids.contains(path));
            let x = choose|x: int| 0 <= x < kids.len() && kids[x] == path;
            assert(ps[a + x] == path);
        }
    }
    ps
}

/// Gathering the candidates: exactly the nodes of the tree that may take part, wherever they
/// stand in it, each once, in the order of a walk from the top.
pub proof fn candidates_are_found_everywhere(root: Node) -> (paths: Seq<Seq<int>>)
    ensures
        paths.len() == candidates(root).len(),
        forall|k: int|
            0 <= k < paths.len() ==> reached(root, #[trigger] paths[k]) == Some(candidates(root)[k])
                && takes_part(candidates(root)[k]),
        forall|i: int, j: int|
            #![trigger paths[i], paths[j]]
            0 <= i < j < paths.len() ==> met_before(paths[i], paths[j]),
        forall|path: Seq<int>|
            (#[trigger] reached(root, path)) is Some && takes_part(reached(root, path)->0)
                ==> paths.contains(path),
{
    let ps = lemma_found(root);
    assert forall|path: Seq<int>|
        (#[trigger] reached(root, path)) is Some && takes_part(reached(root, path)->0) implies
        ps.contains(path) by {
        assert(starts_in(path, None));
    }
    ps
}

/// Whether `nodes` are the nodes that may take part, at the ends of `paths`: all of them, each
/// once, in the order in which they start, and where two start at the same byte in the order of
/// a walk from the top.
pub open spec fn in_document_order(root: Node, nodes: Seq<Node>, paths: Seq<Seq<int>>) -> bool {
    &&& paths.len() == nodes.len()
    &&& forall|k: int|
        0 <= k < nodes.len() ==> reached(root, #[trigger] paths[k]) == Some(nodes[k]) && takes_part(
            nodes[k],
        )
    &&& forall|path: Seq<int>|
        (#[trigger] reached(root, path)) is Some && takes_part(reached(root, path)->0)
            ==> paths.contains(path)
    &&& forall|i: int, j: int|
        #![trigger paths[i], paths[j]]
        0 <= i < j < nodes.len() ==> paths[i] != paths[j] && (nodes[i].loc.start.idx
            < nodes[j].loc.start.idx || (nodes[i].loc.start.idx == nodes[j].loc.start.idx
            && met_before(paths[i], paths[j])))
}

struct Tagged {
    node: Node,
    path: Seq<int>,
    rank: int,
}

impl Placed for Tagged {
    closed spec fn place(self) -> (int, int) {
        (self.node.loc.start.idx as int, 0)
    }
}

proof fn lemma_irreflexive(a: Seq<int>)
    ensures
        !met_before(a, a),
    decreases a.len(),
{
    if a.len() > 0 {
        lemma_irreflexive(a.skip(1));
    }
}

proof fn lemma_block_nodes(root: Node) -> (paths: Seq<Seq<int>>)
    ensures
        in_document_order(root, block_nodes(root), paths),
{
    let ps = candidates_are_found_everywhere(root);
    let ns = candidates(root);
    let ts = Seq::new(ns.len(), |k: int| Tagged { node: ns[k], path: ps[k], rank: k });
    let f = |t: Tagged| t.node;
    let rank = |t: Tagged| t.rank;
    assert(ts.map_values(f) =~= ns);
    sorted_commutes_with_map(ts, f);
    sorted_keeps_len(ts);
    sorted_is_ranked(ts, rank);
    let out = sorted(ts);
    let nodes = block_nodes(root);
    assert(nodes == out.map_values(f));
    let paths = out.map_values(|t: Tagged| t.path);
    assert forall|k: int| 0 <= k < out.len() implies {
        let t = #[trigger] out[k];
        0 <= t.rank < ns.len() && t == ts[t.rank] && reached(root, t.path) == Some(t.node)
            && takes_part(t.node)
    } by {
        let t = out[k];
        assert(out.contains(t));
        sorted_keeps_items(ts, t);
        let x = choose|x: int| 0 <= x < ts.len() && ts[x] == t;
        assert(reached(root, ps[x]) == Some(ns[x]));
    }
    assert forall|k: int| 0 <= k < nodes.len() implies reached(root, #[trigger] paths[k]) == Some(
        nodes[k],
    ) && takes_part(nodes[k]) by {
        let t = out[k];
        assert(paths[k] == t.path && nodes[k] == t.node);
    }
    assert forall|path: Seq<int>|
        (#[trigger] reached(root, path)) is Some && takes_part(reached(root, path)->0) implies
        paths.contains(path) by {
        assert(ps.contains(path));
        let x = choose|x: int| 0 <= x < ps.len() && ps[x] == path;
        assert(ts.contains(ts[x]));
        sorted_keeps_items(ts, ts[x]);
        let k = choose|k: int| 0 <= k < out.len() && out[k] == ts[x];
        assert(paths[k] == path);
    }
    assert forall|i: int, j: int|
        #![trigger paths[i], paths[j]]
        0 <= i < j < nodes.len() implies paths[i] != paths[j] && (nodes[i].loc.start.idx
        < nodes[j].loc.start.idx || (nodes[i].loc.start.idx == nodes[j].loc.start.idx
        && met_before(paths[i], paths[j]))) by {
        let (a, b) = (out[i], out[j]);
        assert(before(a.place(), b.place()) || rank(a) < rank(b));
        assert(a.rank != b.rank);
        if a.rank < b.rank {
            assert(met_before(ps[a.rank], ps[b.rank]));
        } else {
            assert(met_before(ps[b.rank], ps[a.rank]));
        }
        lemma_irreflexive(paths[i]);
    }
    paths
}

/// Whether `node` is a block with content.
pub open spec fn is_block(src: Seq<char>, node: Node) -> bool {
    is_named_block(src, node) || is_raw_text(src, node)
}

/// Whether `node` carries an encoded source map.
pub open spec fn carries_some(src: Seq<char>, node: Node) -> bool {
    exists|p: Seq<char>| #[trigger] carries_map(src, node, p)
}

/// Whether block `k` is an expectation with its input right before it.
pub open spec fn forms_pair(src: Seq<char>, nodes: Seq<Node>, k: int) -> bool {
    0 < k < nodes.len() && is_block(src, nodes[k]) && carries_some(src, nodes[k]) && is_block(
        src,
        nodes[k - 1],
    )
}

/// Whether every node that may take part lies between characters of the source.
pub open spec fn all_between_characters(src: Seq<char>, root: Node) -> bool {
    forall|path: Seq<int>|
        (#[trigger] reached(root, path)) is Some && takes_part(reached(root, path)->0)
            ==> between_characters(src, reached(root, path)->0)
}

/// The blocks of a parsed source fit it exactly if they all lie between characters; a source
/// that does not parse has none.
pub proof fn blocks_of_a_source_fit(src: Seq<char>, parsed: Result<Node, PassError>)
    ensures
        blocks_fit(src, parsed) <==> (parsed is Err || all_between_characters(src, parsed->Ok_0)),
{
    if let Ok(root) = parsed {
        let paths = lemma_block_nodes(root);
        let nodes = block_nodes(root);
        if all_between_characters(src, root) {
            assert forall|i: int| 0 <= i < nodes.len() implies block_fits(
                src,
                #[trigger] nodes[i],
            ) by {
                assert(reached(root, paths[i]) == Some(nodes[i]));
                blocks_fit_between_characters(src, nodes[i]);
            }
        }
        if blocks_fit(src, parsed) {
            assert forall|path: Seq<int>|
                (#[trigger] reached(root, path)) is Some && takes_part(
                    reached(root, path)->0,
                ) implies between_characters(src, reached(root, path)->0) by {
                assert(paths.contains(path));
                let k = choose|k: int| 0 <= k < paths.len() && paths[k] == path;
                assert(block_fits(src, nodes[k]));
                blocks_fit_between_characters(src, nodes[k]);
            }
        }
    }
}

/// Whether the object `j` gives the places of bytes `a` and `b` of the dedented block `node`.
pub open spec fn tells_range(j: Json, src: Seq<char>, node: Node, a: int, b: int) -> bool {
    &&& size(j) == 4
    &&& exists|p: (int, int), q: (int, int)|
        #![trigger maps_to(src, node, a, p), maps_to(src, node, b, q)]
        maps_to(src, node, a, p) && maps_to(src, node, b, q) && has(
            j,
            "line"@,
            Json::Number(p.0 as nat),
        ) && has(j, "col"@, Json::Number(p.1 as nat)) && has(
            j,
            "endLine"@,
            Json::Number(q.0 as nat),
        ) && has(j, "endCol"@, Json::Number(q.1 as nat))
}

/// Whether output span `i` ends at byte `end` of the expectation: where the next mapping
/// starts, or with the dedented block.
pub open spec fn span_ends(
    src: Seq<char>,
    expect: Node,
    mappings: Seq<Mapping>,
    i: int,
    end: int,
) -> bool {
    if i + 1 < mappings.len() {
        end == mappings[i + 1].out
    } else {
        has_bytes(src, expect, end)
    }
}

/// Whether the object `j` tells mapping `i`: the places of its output span in the expectation
/// and, if it has a source range, the places of that range in the input.
pub open spec fn tells_mapping(
    j: Json,
    src: Seq<char>,
    input: Node,
    expect: Node,
    mappings: Seq<Mapping>,
    i: int,
) -> bool {
    &&& exists|out: Json, end: int|
        #![trigger has(j, "out"@, out), span_ends(src, expect, mappings, i, end)]
        has(j, "out"@, out) && span_ends(src, expect, mappings, i, end) && tells_range(
            out,
            src,
            expect,
            mappings[i].out as int,
            end,
        )
    &&& match mappings[i].src {
        Some(r) => size(j) == 2 && exists|s: Json| #[trigger]
            has(j, "src"@, s) && tells_range(s, src, input, r.start as int, r.end as int),
        None => size(j) == 1,
    }
}

/// Whether the objects `ms` tell all mappings, in order.
pub open spec fn tell_mappings(
    ms: Seq<Json>,
    src: Seq<char>,
    input: Node,
    expect: Node,
    mappings: Seq<Mapping>,
) -> bool {
    &&& ms.len() == mappings.len()
    &&& forall|i: int|
        0 <= i < ms.len() ==> tells_mapping(#[trigger] ms[i], src, input, expect, mappings, i)
}

/// Whether the object `j` tells a pair with the given decoded mappings.
pub open spec fn tells_pair(
    j: Json,
    src: Seq<char>,
    input: Node,
    expect: Node,
    mappings: Seq<Mapping>,
) -> bool {
    size(j) == 1 && exists|ms: Seq<Json>| #[trigger]
        tell_mappings(ms, src, input, expect, mappings) && has(j, "mappings"@, Json::List(ms))
}

proof fn lemma_range(src: Seq<char>, node: Node, a: int, b: int)
    requires
        block_of(src, node) is Some,
        block_fits(src, node),
        0 <= a,
        0 <= b,
    ensures
        ({
            let map = block_of(src, node)->0.map;
            tells_range(range_json(place_at(map, a), place_at(map, b)), src, node, a, b)
        }),
{
    let map = block_of(src, node)->0.map;
    block_bytes_stand_in_the_document(src, node, a);
    block_bytes_stand_in_the_document(src, node, b);
    let (p, q) = (place_at(map, a), place_at(map, b));
    let es = range_json(p, q)->Object_0;
    assert(es[0] == (Entry { key: "line"@, value: Json::Number(p.0 as nat) }));
    assert(es[1] == (Entry { key: "col"@, value: Json::Number(p.1 as nat) }));
    assert(es[2] == (Entry { key: "endLine"@, value: Json::Number(q.0 as nat) }));
    assert(es[3] == (Entry { key: "endCol"@, value: Json::Number(q.1 as nat) }));
    assert(maps_to(src, node, a, p) && maps_to(src, node, b, q));
}

proof fn lemma_few_bytes(src: Seq<char>, node: Node)
    requires
        block_of(src, node) is Some,
        block_fits(src, node),
    ensures
        block_of(src, node)->0.map.cells.len() <= u32::MAX,
{
    let start = block_start(src, node);
    let text = block_text(src, node);
    let at = cursor((0, 0), text_between(src, 0, start));
    lemma_cells_bound(at, block_strip(src, node), text);
    match node.kind {
        NodeKind::Block { name, params, body } => {
            let c = block_content(
                bytes_of(src),
                body@[0].loc.start.idx,
                body@.last().loc.end.idx,
            )->0;
            lemma_text_pieces(src, start, c.end as int);
        },
        NodeKind::StrRawTempl { open, close, children } => {
            lemma_text_pieces(src, start, close.loc.start.idx as int);
            lemma_split_prefix(
                text_between(src, start, close.loc.start.idx as int),
                ";; sm:"@,
            );
        },
        _ => {},
    }
}

proof fn lemma_entries(m: Mapping, span: (u32, u32), e: MapModel, n: MapModel)
    ensures
        ({
            let j = mapping_json(m, span, e, n);
            &&& has(j, "out"@, range_json(place_at(e, span.0 as int), place_at(e, span.1 as int)))
            &&& match m.src {
                Some(r) => size(j) == 2 && has(
                    j,
                    "src"@,
                    range_json(place_at(n, r.start as int), place_at(n, r.end as int)),
                ),
                None => size(j) == 1,
            }
        }),
{
    let es = mapping_json(m, span, e, n)->Object_0;
    let out = range_json(place_at(e, span.0 as int), place_at(e, span.1 as int));
    assert(es[0] == (Entry { key: "out"@, value: out }));
    if let Some(r) = m.src {
        let s = range_json(place_at(n, r.start as int), place_at(n, r.end as int));
        assert(es[1] == (Entry { key: "src"@, value: s }));
    }
}

proof fn lemma_mapping(src: Seq<char>, input: Node, expect: Node, mappings: Seq<Mapping>, i: int)
    requires
        block_of(src, input) is Some,
        block_fits(src, input),
        block_of(src, expect) is Some,
        block_fits(src, expect),
        0 <= i < mappings.len(),
    ensures
        tells_mapping(
            mapping_list(
                mappings,
                block_of(src, expect)->0.map,
                block_of(src, input)->0.map,
            )[i],
            src,
            input,
            expect,
            mappings,
            i,
        ),
{
    let e = block_of(src, expect)->0.map;
    let n = block_of(src, input)->0.map;
    lemma_few_bytes(src, expect);
    block_bytes_stand_in_the_document(src, expect, 0);
    let span = spans_of(mappings, e.cells.len() as u32)[i];
    let j = mapping_json(mappings[i], span, e, n);
    assert(j == mapping_list(mappings, e, n)[i]);
    lemma_entries(mappings[i], span, e, n);
    let (a, b) = (span.0 as int, span.1 as int);
    lemma_range(src, expect, a, b);
    assert(has(j, "out"@, range_json(place_at(e, a), place_at(e, b))));
    assert(span_ends(src, expect, mappings, i, b));
    if let Some(r) = mappings[i].src {
        lemma_range(src, input, r.start as int, r.end as int);
        assert(has(
            j,
            "src"@,
            range_json(place_at(n, r.start as int), place_at(n, r.end as int)),
        ));
    }
}

proof fn lemma_group(src: Seq<char>, input: Node, expect: Node, mappings: Seq<Mapping>)
    requires
        block_of(src, input) is Some,
        block_fits(src, input),
        block_of(src, expect) is Some,
        block_fits(src, expect),
    ensures
        tells_pair(
            group_json(mappings, block_of(src, expect)->0.map, block_of(src, input)->0.map),
            src,
            input,
            expect,
            mappings,
        ),
{
    let e = block_of(src, expect)->0.map;
    let n = block_of(src, input)->0.map;
    let ms = mapping_list(mappings, e, n);
    assert forall|i: int| 0 <= i < ms.len() implies tells_mapping(
        #[trigger] ms[i],
        src,
        input,
        expect,
        mappings,
        i,
    ) by {
        lemma_mapping(src, input, expect, mappings, i);
    }
    let j = group_json(mappings, e, n);
    assert(j->Object_0[0] == (Entry { key: "mappings"@, value: Json::List(ms) }));
    assert(tell_mappings(ms, src, input, expect, mappings));
}

proof fn lemma_groups(bs: Seq<Option<SmModel>>, maps: Seq<Option<SourceMap>>, n: int) -> (res: (
    Seq<int>,
    Seq<int>,
))
    requires
        0 <= n <= bs.len(),
    ensures
        lists_all(res.0, n, |k: int| is_pair(bs, k)),
        payloads(bs.take(n)).len() == res.0.len(),
        forall|k: int|
            0 <= k < res.0.len() ==> payloads(bs.take(n))[k]
                == bs[#[trigger] res.0[k]]->0.sm_payload->0,
        lists_all(res.1, res.0.len() as int, |k: int| maps[k] is Some),
        groups(bs.take(n), maps).len() == res.1.len(),
        forall|g: int|
            0 <= g < res.1.len() ==> groups(bs.take(n), maps)[g] == group_json(
                maps[#[trigger] res.1[g]]->0.mappings@,
                bs[res.0[res.1[g]]]->0.map,
                bs[res.0[res.1[g]] - 1]->0.map,
            ),
    decreases n,
{
    let p = |k: int| is_pair(bs, k);
    let q = |k: int| maps[k] is Some;
    if n == 0 {
        lemma_lists_none(p);
        lemma_lists_none(q);
        (Seq::empty(), Seq::empty())
    } else {
        let (pairs, told) = lemma_groups(bs, maps, n - 1);
        let s = bs.take(n);
        assert(s.drop_last() =~= bs.take(n - 1));
        assert(is_pair(s, n - 1) == is_pair(bs, n - 1));
        lemma_lists_next(pairs, n - 1, p);
        let pairs2 = with_next(pairs, n - 1, p);
        if p(n - 1) {
            lemma_lists_next(told, pairs.len() as int, q);
            let told2 = with_next(told, pairs.len() as int, q);
            assert(pairs2[pairs.len() as int] == n - 1);
            assert forall|k: int| 0 <= k < pairs2.len() implies payloads(s)[k]
                == bs[#[trigger] pairs2[k]]->0.sm_payload->0 by {
                if k < pairs.len() {
                    assert(pairs2[k] == pairs[k]);
                }
            }
            assert forall|g: int| 0 <= g < told2.len() implies groups(s, maps)[g] == group_json(
                maps[#[trigger] told2[g]]->0.mappings@,
                bs[pairs2[told2[g]]]->0.map,
                bs[pairs2[told2[g]] - 1]->0.map,
            ) by {
                if g < told.len() {
                    assert(told2[g] == told[g]);
                    assert(pairs2[told[g]] == pairs[told[g]]);
                }
            }
            (pairs2, told2)
        } else {
            (pairs, told)
        }
    }
}

/// What a parsed test file is reported as. `nodes` are the blocks that may take part, in
/// document order; `pairs` the numbers of those that are expectations with an input right
/// before them; `told` which of the pairs have a map that could be decoded; and `js` the
/// objects that are reported.
pub struct Report {
    pub nodes: Seq<Node>,
    pub paths: Seq<Seq<int>>,
    pub pairs: Seq<int>,
    pub told: Seq<int>,
    pub js: Seq<Json>,
}

/// The report of a parsed test file: one object for each pair whose map could be decoded, in
/// document order, which tells all its mappings by places in the document; and the payloads to
/// decode are those that the pairs carry.
pub proof fn report_tells_every_decoded_pair(
    src: Seq<char>,
    root: Node,
    maps: Seq<Option<SourceMap>>,
) -> (r: Report)
    requires
        all_between_characters(src, root),
    ensures
        in_document_order(root, r.nodes, r.paths),
        lists_all(r.pairs, r.nodes.len() as int, |k: int| forms_pair(src, r.nodes, k)),
        payloads_of(src, Ok(root)).len() == r.pairs.len(),
        forall|k: int|
            0 <= k < r.pairs.len() ==> carries_map(
                src,
                r.nodes[#[trigger] r.pairs[k]],
                payloads_of(src, Ok(root))[k],
            ),
        lists_all(r.told, r.pairs.len() as int, |k: int| maps[k] is Some),
        reads_as(report_text(src, Ok(root), maps), r.js),
        r.js.len() == r.told.len(),
        forall|g: int|
            0 <= g < r.js.len() ==> tells_pair(
                r.js[g],
                src,
                r.nodes[r.pairs[r.told[g]] - 1],
                r.nodes[r.pairs[r.told[g]]],
                maps[#[trigger] r.told[g]]->0.mappings@,
            ),
{
    blocks_of_a_source_fit(src, Ok(root));
    let nodes = block_nodes(root);
    let paths = lemma_block_nodes(root);
    let bs = blocks(src, root);
    let n = bs.len() as int;
    let (pairs, told) = lemma_groups(bs, maps, n);
    assert(bs.take(n) =~= bs);
    let js = report(src, Ok(root), maps);
    lemma_reads_as(js);
    assert forall|k: int| #![trigger nodes[k]] 0 <= k < nodes.len() implies bs[k] == block_of(
        src,
        nodes[k],
    ) && block_fits(src, nodes[k]) && (bs[k] is Some <==> is_block(src, nodes[k])) && (bs[k] is Some
        ==> (bs[k]->0.sm_payload is Some <==> carries_some(src, nodes[k]))) by {
        let node = nodes[k];
        assert(block_fits(src, node));
        blocks_are_named_or_raw(src, node);
        if bs[k] is Some {
            if let Some(p) = bs[k]->0.sm_payload {
                payload_is_what_the_comment_carries(src, node, p);
            }
            if carries_some(src, node) {
                let p = choose|p: Seq<char>| #[trigger] carries_map(src, node, p);
                payload_is_what_the_comment_carries(src, node, p);
            }
        }
    }
    let p = |k: int| is_pair(bs, k);
    let p2 = |k: int| forms_pair(src, nodes, k);
    assert forall|k: int| 0 <= k < nodes.len() implies #[trigger] p(k) == p2(k) by {
        assert(bs[k] == block_of(src, nodes[k]));
        if k > 0 {
            assert(bs[k - 1] == block_of(src, nodes[k - 1]));
        }
    }
    assert(lists_all(pairs, n, p2)) by {
        assert forall|i: int| 0 <= i < pairs.len() implies 0 <= #[trigger] pairs[i] < n && p2(
            pairs[i],
        ) by {
            assert(p(pairs[i]));
        }
        assert forall|k: int| 0 <= k < n && p2(k) implies #[trigger] pairs.contains(k) by {
            assert(p(k));
        }
    }
    assert forall|k: int| 0 <= k < pairs.len() implies carries_map(
        src,
        nodes[#[trigger] pairs[k]],
        payloads_of(src, Ok(root))[k],
    ) by {
        let node = nodes[pairs[k]];
        assert(p(pairs[k]));
        assert(bs[pairs[k]] == block_of(src, node));
        payload_is_what_the_comment_carries(src, node, payloads_of(src, Ok(root))[k]);
    }
    assert forall|g: int| 0 <= g < js.len() implies tells_pair(
        js[g],
        src,
        nodes[pairs[told[g]] - 1],
        nodes[pairs[told[g]]],
        maps[#[trigger] told[g]]->0.mappings@,
    ) by {
        let k = pairs[told[g]];
        assert(p(k));
        assert(bs[k] == block_of(src, nodes[k]));
        assert(bs[k - 1] == block_of(src, nodes[k - 1]));
        lemma_group(src, nodes[k - 1], nodes[k], maps[told[g]]->0.mappings@);
    }
    Report { nodes, paths, pairs, told, js }
}

/// A source that does not parse has nothing to decode and nothing to report.
pub proof fn nothing_is_reported_without_a_tree(
    src: Seq<char>,
    e: PassError,
    maps: Seq<Option<SourceMap>>,
)
    ensures
        payloads_of(src, Err(e)).len() == 0,
        reads_as(report_text(src, Err(e), maps), Seq::empty()),
{
    lemma_reads_as(Seq::empty());
}

} // verus!
