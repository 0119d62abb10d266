//! Source-map highlighting for the compiler's test files.
//!
//! A test file holds pairs of blocks: an input, and right behind it an expectation whose
//! comment carries a source map from the expectation to the input. The decoded maps are
//! reported as ranges of the document.
use vstd::prelude::*;
use vstd::string::*;
use crate::blockmap::{place_at, BlockMap, MapModel};
use crate::candidates::{candidates, collect_sm_candidates, targets};
use crate::json::{
    add_member, add_range, items_of, json_of, json_reads_back, json_text, lemma_items_push,
    range_entries, read_json, write_json, Entry, Json, Member, Value,
};
use crate::smblock::{block_fits, block_of, opt_block, try_build_sm_block, SmBlock, SmModel};
use crate::sort::{sort_by_place, sorted, sorted_commutes_with_map};
use crate::syntax::{Node, PassError};
use crate::text::views;

verus! {

/// A range of input bytes.
#[derive(Clone, Copy, PartialEq, Eq, Debug)]
pub struct SrcRange {
    pub start: u32,
    pub end: u32,
}

/// One mapping of a source map: where in the output it starts, and the input behind it.
#[derive(Clone, Copy, PartialEq, Eq, Debug)]
pub struct Mapping {
    pub out: u32,
    pub src: Option<SrcRange>,
}

/// A decoded source map.
#[derive(Debug)]
pub struct SourceMap {
    pub mappings: Vec<Mapping>,
}

/// The output span of each mapping: up to where the next one starts, the last up to the
/// end of the output.
pub open spec fn spans_of(mappings: Seq<Mapping>, output_len: u32) -> Seq<(u32, u32)> {
    Seq::new(
        mappings.len(),
        |i: int|
            (
                mappings[i].out,
                if i + 1 < mappings.len() {
                    mappings[i + 1].out
                } else {
                    output_len
                },
            ),
    )
}

/// Finds the output span of each mapping.
pub fn output_spans(sm: &SourceMap, output_len: u32) -> (spans: Vec<(u32, u32)>)
    ensures
        spans@ == spans_of(sm.mappings@, output_len),
{
    let n = sm.mappings.len();
    let mut spans: Vec<(u32, u32)> = Vec::new();
    for i in 0..n
        invariant
            n == sm.mappings@.len(),
            spans@ == spans_of(sm.mappings@, output_len).take(i as int),
    {
        let start = sm.mappings[i].out;
        let end = if i + 1 < n {
            sm.mappings[i + 1].out
        } else {
            output_len
        };
        spans.push((start, end));
        assert(spans@ =~= spans_of(sm.mappings@, output_len).take(i + 1));
    }
    assert(spans@ =~= spans_of(sm.mappings@, output_len));
    spans
}

/// The output spans leave no gap: each ends where the next one starts, and the last ends
/// with the output.
pub proof fn output_spans_leave_no_gap(mappings: Seq<Mapping>, output_len: u32)
    ensures
        spans_of(mappings, output_len).len() == mappings.len(),
        forall|i: int|
            0 <= i < mappings.len() - 1 ==> (#[trigger] spans_of(mappings, output_len)[i]).1
                == spans_of(mappings, output_len)[i + 1].0,
        mappings.len() > 0 ==> spans_of(mappings, output_len).last().1 == output_len,
{
}

/// The JSON object for the range between two places.
pub open spec fn range_json(start: (int, int), end: (int, int)) -> Json {
    Json::Object(range_entries(start.0, start.1, end.0, end.1))
}

/// The JSON object for a mapping with the output span `span`. The input behind it is left out
/// where there is none.
pub open spec fn mapping_json(
    m: Mapping,
    span: (u32, u32),
    expect: MapModel,
    input: MapModel,
) -> Json {
    let out = Entry {
        key: "out"@,
        value: range_json(place_at(expect, span.0 as int), place_at(expect, span.1 as int)),
    };
    Json::Object(
        match m.src {
            Some(r) => seq![
                out,
                Entry {
                    key: "src"@,
                    value: range_json(
                        place_at(input, r.start as int),
                        place_at(input, r.end as int),
                    ),
                },
            ],
            None => seq![out],
        },
    )
}

/// The JSON objects for the mappings of a source map from `expect` to `input`.
pub open spec fn mapping_list(
    mappings: Seq<Mapping>,
    expect: MapModel,
    input: MapModel,
) -> Seq<Json> {
    let spans = spans_of(mappings, expect.cells.len() as u32);
    Seq::new(mappings.len(), |i: int| mapping_json(mappings[i], spans[i], expect, input))
}

/// The JSON object for a source map from `expect` to `input`.
pub open spec fn group_json(mappings: Seq<Mapping>, expect: MapModel, input: MapModel) -> Json {
    Json::Object(
        seq![
            Entry {
                key: "mappings"@,
                value: Json::List(mapping_list(mappings, expect, input)),
            },
        ],
    )
}

/// The candidate nodes of a tree, in document order.
pub open spec fn block_nodes(root: Node) -> Seq<Node> {
    sorted(candidates(root))
}

/// The candidate blocks of a tree, in document order.
pub open spec fn blocks(src: Seq<char>, root: Node) -> Seq<Option<SmModel>> {
    block_nodes(root).map_values(|n: Node| block_of(src, n))
}

/// Whether block `i` is an expectation with an input: it carries a payload, and there is a
/// block right before it.
pub open spec fn is_pair(bs: Seq<Option<SmModel>>, i: int) -> bool {
    &&& 0 < i < bs.len()
    &&& bs[i] is Some
    &&& bs[i]->0.sm_payload is Some
    &&& bs[i - 1] is Some
}

/// The payloads of the pairs, in document order.
pub open spec fn payloads(bs: Seq<Option<SmModel>>) -> Seq<Seq<char>>
    decreases bs.len(),
{
    if bs.len() == 0 {
        Seq::empty()
    } else if is_pair(bs, bs.len() - 1) {
        payloads(bs.drop_last()).push(bs.last()->0.sm_payload->0)
    } else {
        payloads(bs.drop_last())
    }
}

/// The JSON objects of the pairs whose payload could be decoded; `maps` holds the decoded
/// payloads.
pub open spec fn groups(bs: Seq<Option<SmModel>>, maps: Seq<Option<SourceMap>>) -> Seq<Json>
    decreases bs.len(),
{
    if bs.len() == 0 {
        Seq::empty()
    } else {
        let earlier = groups(bs.drop_last(), maps);
        if is_pair(bs, bs.len() - 1) {
            match maps[payloads(bs.drop_last()).len() as int] {
                Some(sm) => earlier.push(
                    group_json(sm.mappings@, bs.last()->0.map, bs[bs.len() - 2]->0.map),
                ),
                None => earlier,
            }
        } else {
            earlier
        }
    }
}

/// Whether the offsets of all candidate blocks fit the source.
pub open spec fn blocks_fit(src: Seq<char>, parsed: Result<Node, PassError>) -> bool {
    match parsed {
        Ok(root) => forall|i: int|
            0 <= i < block_nodes(root).len() ==> block_fits(
                src,
                #[trigger] block_nodes(root)[i],
            ),
        Err(_) => true,
    }
}

/// The payloads to decode for a parsed source.
pub open spec fn payloads_of(src: Seq<char>, parsed: Result<Node, PassError>) -> Seq<Seq<char>> {
    match parsed {
        Ok(root) => payloads(blocks(src, root)),
        Err(_) => Seq::empty(),
    }
}

/// The report for a parsed source; a source that does not parse has nothing to report.
pub open spec fn report(
    src: Seq<char>,
    parsed: Result<Node, PassError>,
    maps: Seq<Option<SourceMap>>,
) -> Seq<Json> {
    match parsed {
        Ok(root) => groups(blocks(src, root), maps),
        Err(_) => Seq::empty(),
    }
}

/// The JSON text of the report.
pub open spec fn report_text(
    src: Seq<char>,
    parsed: Result<Node, PassError>,
    maps: Seq<Option<SourceMap>>,
) -> Seq<char> {
    json_text(Json::List(report(src, parsed, maps)))
}

/// The blocks behind a list of optional blocks.
pub open spec fn block_views(v: Seq<Option<SmBlock>>) -> Seq<Option<SmModel>> {
    v.map_values(|b: Option<SmBlock>| opt_block(b))
}

fn try_build_blocks(src: &str, root: &Node) -> (built: Option<Vec<Option<SmBlock>>>)
    ensures
        built is Some <==> (forall|i: int|
            0 <= i < block_nodes(*root).len() ==> block_fits(
                src@,
                #[trigger] block_nodes(*root)[i],
            )),
        built matches Some(v) ==> block_views(v@) == blocks(src@, *root),
{
    let mut nodes: Vec<&Node> = Vec::new();
    assert(targets(nodes@) =~= Seq::<Node>::empty());
    collect_sm_candidates(root, &mut nodes);
    let ghost gathered = nodes@;
    assert(targets(gathered) =~= candidates(*root));
    sort_by_place(&mut nodes);
    let ghost wanted = block_nodes(*root);
    proof {
        sorted_commutes_with_map(gathered, |r: &Node| *r);
        assert(targets(nodes@) == wanted);
    }
    let mut built: Vec<Option<SmBlock>> = Vec::new();
    for i in 0..nodes.len()
        invariant
            wanted == block_nodes(*root),
            targets(nodes@) == wanted,
            block_views(built@) == blocks(src@, *root).take(i as int),
            forall|k: int| 0 <= k < i ==> block_fits(src@, #[trigger] wanted[k]),
    {
        assert(wanted[i as int] == *nodes@[i as int]);
        match try_build_sm_block(src, nodes[i]) {
            Some(b) => {
                let ghost was = built@;
                built.push(b);
                assert(block_views(built@) =~= block_views(was).push(opt_block(b)));
                assert(blocks(src@, *root).take(i + 1) =~= blocks(src@, *root).take(i as int).push(
                    block_of(src@, wanted[i as int]),
                ));
            },
            None => {
                return None;
            },
        }
    }
    assert(blocks(src@, *root).take(nodes.len() as int) =~= blocks(src@, *root));
    Some(built)
}

fn forms_pair(built: &Vec<Option<SmBlock>>, i: usize) -> (yes: bool)
    requires
        i < built.len(),
    ensures
        yes == is_pair(block_views(built@), i as int),
{
    if i == 0 {
        return false;
    }
    let carries = match &built[i] {
        Some(b) => b.sm_payload.is_some(),
        None => false,
    };
    carries && built[i - 1].is_some()
}

/// Whether the offsets of all candidate blocks fit the source.
pub fn sm_fits(src: &str, parsed: &Result<Node, PassError>) -> (yes: bool)
    ensures
        yes == blocks_fit(src@, *parsed),
{
    match parsed {
        Ok(root) => try_build_blocks(src, root).is_some(),
        Err(_) => true,
    }
}

proof fn lemma_is_pair_in_prefix(bs: Seq<Option<SmModel>>, n: int)
    requires
        0 < n <= bs.len(),
    ensures
        is_pair(bs.take(n), n - 1) == is_pair(bs, n - 1),
        bs.take(n).drop_last() == bs.take(n - 1),
{
    assert(bs.take(n).drop_last() =~= bs.take(n - 1));
}

/// The encoded source maps that have to be decoded, in document order.
pub fn sm_payloads(src: &str, parsed: &Result<Node, PassError>) -> (list: Vec<String>)
    requires
        blocks_fit(src@, *parsed),
    ensures
        views(list@) == payloads_of(src@, *parsed),
{
    let mut list: Vec<String> = Vec::new();
    let root = match parsed {
        Ok(root) => root,
        Err(_) => {
            assert(views(list@) =~= payloads_of(src@, *parsed));
            return list;
        },
    };
    let built = try_build_blocks(src, root).unwrap();
    let ghost bs = block_views(built@);
    assert(views(list@) =~= payloads(bs.take(0)));
    for i in 0..built.len()
        invariant
            bs == block_views(built@),
            views(list@) == payloads(bs.take(i as int)),
    {
        proof {
            lemma_is_pair_in_prefix(bs, i + 1);
        }
        let ghost was = list@;
        if forms_pair(&built, i) {
            match &built[i] {
                Some(b) => match &b.sm_payload {
                    Some(p) => {
                        list.push(p.clone());
                        assert(views(list@) =~= views(was).push(p@));
                    },
                    None => {},
                },
                None => {},
            }
        }
    }
    assert(bs.take(bs.len() as int) =~= bs);
    list
}

fn make_range(start: (u32, u32), end: (u32, u32)) -> (v: Value)
    ensures
        json_of(v) == range_json(
            (start.0 as int, start.1 as int),
            (end.0 as int, end.1 as int),
        ),
{
    let mut members: Vec<Member> = Vec::new();
    add_range(&mut members, start.0, start.1, end.0, end.1);
    let v = Value::Object(members);
    assert(json_of(v)->Object_0 =~= range_entries(
        start.0 as int,
        start.1 as int,
        end.0 as int,
        end.1 as int,
    ));
    v
}

fn make_mapping(m: &Mapping, span: (u32, u32), expect: &BlockMap, input: &BlockMap) -> (v: Value)
    ensures
        json_of(v) == mapping_json(*m, span, expect@, input@),
{
    let mut members: Vec<Member> = Vec::new();
    add_member(&mut members, "out", make_range(expect.pos_at(span.0), expect.pos_at(span.1)));
    if let Some(r) = m.src {
        add_member(&mut members, "src", make_range(input.pos_at(r.start), input.pos_at(r.end)));
    }
    let v = Value::Object(members);
    assert(json_of(v)->Object_0 =~= mapping_json(*m, span, expect@, input@)->Object_0);
    v
}

fn make_group(sm: &SourceMap, expect: &BlockMap, input: &BlockMap) -> (v: Value)
    ensures
        json_of(v) == group_json(sm.mappings@, expect@, input@),
{
    let spans = output_spans(sm, expect.dedented_len());
    let ghost wanted = mapping_list(sm.mappings@, expect@, input@);
    let mut items: Vec<Value> = Vec::new();
    assert(items_of(items@) =~= wanted.take(0));
    for i in 0..sm.mappings.len()
        invariant
            spans@ == spans_of(sm.mappings@, expect@.cells.len() as u32),
            wanted == mapping_list(sm.mappings@, expect@, input@),
            items_of(items@) == wanted.take(i as int),
    {
        let item = make_mapping(&sm.mappings[i], spans[i], expect, input);
        proof {
            lemma_items_push(items@, item);
            assert(wanted.take(i + 1) =~= wanted.take(i as int).push(wanted[i as int]));
        }
        items.push(item);
    }
    assert(wanted.take(sm.mappings.len() as int) =~= wanted);
    let mut members: Vec<Member> = Vec::new();
    add_member(&mut members, "mappings", Value::List(items));
    let v = Value::Object(members);
    assert(json_of(v)->Object_0 =~= group_json(sm.mappings@, expect@, input@)->Object_0);
    v
}

/// Reports the source maps of a test file as ranges of the document, in JSON. `parsed` is
/// what parsing `src` gave, and `maps` holds, for each of `sm_payloads`, the decoded map, or
/// `None` where it cannot be decoded; such pairs are left out.
pub fn get_sm_mappings(
    src: &str,
    parsed: &Result<Node, PassError>,
    maps: &Vec<Option<SourceMap>>,
) -> (json: String)
    requires
        blocks_fit(src@, *parsed),
        maps@.len() == payloads_of(src@, *parsed).len(),
    ensures
        json@ == report_text(src@, *parsed, maps@),
{
    let mut items: Vec<Value> = Vec::new();
    let root = match parsed {
        Ok(root) => root,
        Err(_) => {
            assert(items_of(items@) =~= Seq::<Json>::empty());
            return write_json(&Value::List(items));
        },
    };
    let built = try_build_blocks(src, root).unwrap();
    let ghost bs = block_views(built@);
    let mut next: usize = 0;
    assert(items_of(items@) =~= groups(bs.take(0), maps@));
    for i in 0..built.len()
        invariant
            bs == block_views(built@),
            items_of(items@) == groups(bs.take(i as int), maps@),
            next == payloads(bs.take(i as int)).len(),
            maps@.len() == payloads(bs).len(),
    {
        proof {
            lemma_is_pair_in_prefix(bs, i + 1);
            lemma_payloads_prefix(bs, i + 1);
        }
        if forms_pair(&built, i) {
            if let (Some(expect), Some(input), Some(sm)) = (&built[i], &built[i - 1], &maps[next]) {
                let item = make_group(sm, &expect.map, &input.map);
                proof {
                    lemma_items_push(items@, item);
                    assert(bs[i as int] == opt_block(built@[i as int]));
                    assert(bs[i - 1] == opt_block(built@[i - 1]));
                }
                items.push(item);
            }
            assert(next < maps.len());
            next = next + 1;
        }
    }
    assert(bs.take(bs.len() as int) =~= bs);
    write_json(&Value::List(items))
}

proof fn lemma_payloads_prefix(bs: Seq<Option<SmModel>>, n: int)
    requires
        0 <= n <= bs.len(),
    ensures
        payloads(bs.take(n)).len() <= payloads(bs).len(),
    decreases bs.len(),
{
    if n < bs.len() {
        assert(bs.drop_last().take(n) =~= bs.take(n));
        lemma_payloads_prefix(bs.drop_last(), n);
    } else {
        assert(bs.take(n) =~= bs);
    }
}

/// The JSON text of the report reads back.
pub proof fn report_reads_back(
    src: Seq<char>,
    parsed: Result<Node, PassError>,
    maps: Seq<Option<SourceMap>>,
)
    ensures
        read_json(report_text(src, parsed, maps)) == Some(
            (Json::List(report(src, parsed, maps)), Seq::<char>::empty()),
        ),
{
    let none = Seq::<char>::empty();
    json_reads_back(Json::List(report(src, parsed, maps)), none);
    assert(report_text(src, parsed, maps) + none =~= report_text(src, parsed, maps));
}

/// Every pair whose payload can be decoded has its report: the mappings of the decoded map,
/// with output places in the expectation and input places in the block right before it.
pub proof fn decoded_pairs_are_reported(
    bs: Seq<Option<SmModel>>,
    maps: Seq<Option<SourceMap>>,
    i: int,
) -> (g: int)
    requires
        is_pair(bs, i),
        maps[payloads(bs.take(i)).len() as int] is Some,
    ensures
        0 <= g < groups(bs, maps).len(),
        groups(bs, maps)[g] == group_json(
            maps[payloads(bs.take(i)).len() as int]->0.mappings@,
            bs[i]->0.map,
            bs[i - 1]->0.map,
        ),
    decreases bs.len(),
{
    let init = bs.drop_last();
    if i == bs.len() - 1 {
        assert(bs.take(i) =~= init);
        groups(init, maps).len() as int
    } else {
        assert(init.take(i) =~= bs.take(i));
        decoded_pairs_are_reported(init, maps, i)
    }
}

/// Nothing else is reported: there are no more reports than pairs, and as many if every
/// payload can be decoded.
pub proof fn only_pairs_are_reported(bs: Seq<Option<SmModel>>, maps: Seq<Option<SourceMap>>)
    ensures
        groups(bs, maps).len() <= payloads(bs).len(),
        (forall|k: int| 0 <= k < payloads(bs).len() ==> #[trigger] maps[k] is Some) ==> groups(
            bs,
            maps,
        ).len() == payloads(bs).len(),
    decreases bs.len(),
{
    if bs.len() > 0 {
        only_pairs_are_reported(bs.drop_last(), maps);
    }
}

} // verus!
