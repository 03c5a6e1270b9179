//! Neighborhood graph extraction and rendering.
//!
//! The subgraph within some hops of a starting node is rendered as Graphviz DOT or Mermaid. The
//! full index is far too dense to render whole; a bounded neighborhood is the useful unit.

use vstd::prelude::*;

use crate::extract::{canonical, canonicalize};
use crate::order::{
    before, is_order, key_le, keys_ok, order_of, ordered, places, KeyModel, KeyPart, PartModel,
    SortKey,
};
use crate::paths::{file_name, file_name_of};
use crate::select::{arrange, lemma_ordered, lemma_picked, picked};
use crate::store::{
    find_node, has_node, index_ok, lemma_node_place, node_place, EdgeModel, Index, IndexModel, Node,
    NodeModel,
};
use crate::text::{decimal_int, decimal_of_int, lowercase, replace_char, replaced, same_text};

verus! {

/// A node in an extracted subgraph.
#[derive(Debug, Clone)]
pub struct GraphNode {
    pub id: i64,
    pub kind: String,
    pub name: String,
    /// Hops from the start node (0 = the start node itself).
    pub distance: usize,
}

/// A directed edge in an extracted subgraph. The weight is in thousandths.
#[derive(Debug, Clone)]
pub struct GraphEdge {
    pub src: i64,
    pub dst: i64,
    pub relation: String,
    pub weight: i128,
}

/// A bounded neighborhood around a start node.
#[derive(Debug)]
pub struct Subgraph {
    pub start: i64,
    pub nodes: Vec<GraphNode>,
    pub edges: Vec<GraphEdge>,
}

/// The output format of a rendered graph.
#[derive(Debug, Clone, Copy, PartialEq, Eq, Structural)]
pub enum GraphFormat {
    Dot,
    Mermaid,
}

/// The value of a `GraphNode`.
pub struct GraphNodeModel {
    pub id: int,
    pub kind: Seq<char>,
    pub name: Seq<char>,
    pub distance: int,
}

/// The value of a `GraphEdge`.
pub struct GraphEdgeModel {
    pub src: int,
    pub dst: int,
    pub relation: Seq<char>,
    pub weight: int,
}

/// The value of a `Subgraph`.
#[verifier::ext_equal]
pub struct SubgraphModel {
    pub start: int,
    pub nodes: Seq<GraphNodeModel>,
    pub edges: Seq<GraphEdgeModel>,
}

impl DeepView for GraphNode {
    type V = GraphNodeModel;

    open spec fn deep_view(&self) -> GraphNodeModel {
        GraphNodeModel {
            id: self.id as int,
            kind: self.kind@,
            name: self.name@,
            distance: self.distance as int,
        }
    }
}

impl DeepView for GraphEdge {
    type V = GraphEdgeModel;

    open spec fn deep_view(&self) -> GraphEdgeModel {
        GraphEdgeModel {
            src: self.src as int,
            dst: self.dst as int,
            relation: self.relation@,
            weight: self.weight as int,
        }
    }
}

impl DeepView for Subgraph {
    type V = SubgraphModel;

    open spec fn deep_view(&self) -> SubgraphModel {
        SubgraphModel {
            start: self.start as int,
            nodes: self.nodes.deep_view(),
            edges: self.edges.deep_view(),
        }
    }
}

/// The format that a lowercase name stands for.
pub open spec fn format_named(lower: Seq<char>) -> Option<GraphFormat> {
    if lower == "dot"@ || lower == "graphviz"@ {
        Some(GraphFormat::Dot)
    } else if lower == "mermaid"@ || lower == "mmd"@ {
        Some(GraphFormat::Mermaid)
    } else {
        None
    }
}

impl GraphFormat {
    /// The format that a name stands for, in whatever case.
    pub fn parse(s: &str) -> (r: Option<GraphFormat>)
        ensures
            r == format_named(lowercase(s@)),
            vstd::utf8::is_ascii_chars(s@) ==> r == format_named(crate::text::ascii_lowercase(s@)),
    {
        let lower = s.to_lowercase();
        if same_text(&lower, "dot") || same_text(&lower, "graphviz") {
            Some(GraphFormat::Dot)
        } else if same_text(&lower, "mermaid") || same_text(&lower, "mmd") {
            Some(GraphFormat::Mermaid)
        } else {
            None
        }
    }
}

/// The first of the nodes of a kind that has a canonical name.
pub open spec fn first_named(nodes: Seq<NodeModel>, kind: Seq<char>, name: Seq<char>, from: int) -> Option<
    int,
>
    decreases nodes.len() - from,
{
    if from < 0 || from >= nodes.len() {
        None
    } else if nodes[from].kind == kind && canonical(nodes[from].name) == name {
        Some(from)
    } else {
        first_named(nodes, kind, name, from + 1)
    }
}

/// The place of the first node of a kind that has a canonical name.
pub fn find_named(nodes: &Vec<Node>, kind: &str, name: &String) -> (r: Option<usize>)
    ensures
        match r {
            Some(i) => first_named(nodes.deep_view(), kind@, name@, 0) == Some(i as int) && i
                < nodes@.len(),
            None => first_named(nodes.deep_view(), kind@, name@, 0) is None,
        },
{
    let ghost all = nodes.deep_view();
    let mut i: usize = 0;
    while i < nodes.len()
        invariant
            all == nodes.deep_view(),
            i <= all.len(),
            first_named(all, kind@, name@, 0) == first_named(all, kind@, name@, i as int),
        decreases all.len() - i,
    {
        assert(all[i as int] == nodes@[i as int].deep_view());
        if same_text(&nodes[i].kind, kind) && canonicalize(&nodes[i].name) == *name {
            return Some(i);
        }
        i += 1;
    }
    None
}

/// The place of the node that a name stands for as a start: a project, else an entity, else a
/// note, compared without regard to case and edge punctuation.
pub open spec fn start_place(nodes: Seq<NodeModel>, name: Seq<char>) -> Option<int> {
    match first_named(nodes, "project"@, canonical(name), 0) {
        Some(i) => Some(i),
        None => match first_named(nodes, "entity"@, canonical(name), 0) {
            Some(i) => Some(i),
            None => first_named(nodes, "note"@, canonical(name), 0),
        },
    }
}

fn resolve_start(nodes: &Vec<Node>, name: &str) -> (r: Option<usize>)
    ensures
        match r {
            Some(i) => start_place(nodes.deep_view(), name@) == Some(i as int) && i < nodes@.len(),
            None => start_place(nodes.deep_view(), name@) is None,
        },
{
    let wanted = canonicalize(name);
    if let Some(i) = find_named(nodes, "project", &wanted) {
        return Some(i);
    }
    if let Some(i) = find_named(nodes, "entity", &wanted) {
        return Some(i);
    }
    find_named(nodes, "note", &wanted)
}

/// Whether an edge of enough weight has node `id` as an endpoint.
pub open spec fn touches(edge: EdgeModel, min: int, id: int) -> bool {
    edge.weight >= min && (edge.src == id || edge.dst == id)
}

/// The endpoint of an edge that is not `id`.
pub open spec fn other_end(edge: EdgeModel, id: int) -> int {
    if edge.src == id {
        edge.dst
    } else {
        edge.src
    }
}

/// Whether node `id` is within `k` hops of `start`, over edges of enough weight in either
/// direction.
pub open spec fn within(m: IndexModel, min: int, start: int, id: int, k: nat) -> bool
    decreases k,
{
    if k == 0 {
        id == start
    } else {
        within(m, min, start, id, (k - 1) as nat) || exists|e: int|
            0 <= e < m.edges.len() && #[trigger] touches(m.edges[e], min, id) && within(
                m,
                min,
                start,
                other_end(m.edges[e], id),
                (k - 1) as nat,
            )
    }
}

/// Whether an edge of enough weight joins node `id` to a node within `k` hops.
spec fn joins(m: IndexModel, min: int, start: int, edge: EdgeModel, id: int, k: nat) -> bool {
    touches(edge, min, id) && within(m, min, start, other_end(edge, id), k)
}

proof fn lemma_within_step(m: IndexModel, min: int, start: int, id: int, k: nat)
    ensures
        within(m, min, start, id, k + 1) <==> within(m, min, start, id, k) || exists|e: int|
            0 <= e < m.edges.len() && #[trigger] joins(m, min, start, m.edges[e], id, k),
{
    assert((k + 1 - 1) as nat == k);
    if within(m, min, start, id, k + 1) && !within(m, min, start, id, k) {
        let e = choose|e: int|
            0 <= e < m.edges.len() && #[trigger] touches(m.edges[e], min, id) && within(
                m,
                min,
                start,
                other_end(m.edges[e], id),
                k,
            );
        assert(joins(m, min, start, m.edges[e], id, k));
    }
    if exists|e: int|
        0 <= e < m.edges.len() && #[trigger] joins(m, min, start, m.edges[e], id, k) {
        let e = choose|e: int|
            0 <= e < m.edges.len() && #[trigger] joins(m, min, start, m.edges[e], id, k);
        assert(touches(m.edges[e], min, id));
    }
}

/// How many hops node `id` is from `start`, where that is at most `depth`.
pub open spec fn hops(m: IndexModel, min: int, start: int, id: int, depth: nat) -> Option<int>
    decreases depth,
{
    if depth > 0 && within(m, min, start, id, (depth - 1) as nat) {
        hops(m, min, start, id, (depth - 1) as nat)
    } else if within(m, min, start, id, depth) {
        Some(depth as int)
    } else {
        None
    }
}

/// Which nodes are in the neighborhood.
pub open spec fn near_flags(m: IndexModel, min: int, start: int, depth: nat) -> Seq<bool> {
    Seq::new(m.nodes.len(), |i: int| within(m, min, start, m.nodes[i].id, depth))
}

/// What the nodes of a neighborhood are sorted by: distance, then identity.
pub open spec fn near_keys(m: IndexModel, min: int, start: int, depth: nat, picks: Seq<int>) -> Seq<
    KeyModel,
> {
    Seq::new(
        picks.len(),
        |k: int|
            seq![
                PartModel::Num(hops(m, min, start, m.nodes[picks[k]].id, depth)->0),
                PartModel::Num(m.nodes[picks[k]].id),
            ],
    )
}

/// The nodes of the neighborhood in their order.
pub open spec fn near_order(m: IndexModel, min: int, start: int, depth: nat) -> Seq<int> {
    let picks = picked(near_flags(m, min, start, depth));
    ordered(picks, near_keys(m, min, start, depth, picks))
}

/// The entry of a node.
pub open spec fn near_node(m: IndexModel, min: int, start: int, depth: nat, i: int) -> GraphNodeModel {
    GraphNodeModel {
        id: m.nodes[i].id,
        kind: m.nodes[i].kind,
        name: m.nodes[i].name,
        distance: hops(m, min, start, m.nodes[i].id, depth)->0,
    }
}

/// Which edges of enough weight have both endpoints in the neighborhood.
pub open spec fn near_edge_flags(m: IndexModel, min: int, start: int, depth: nat) -> Seq<bool> {
    Seq::new(
        m.edges.len(),
        |e: int|
            m.edges[e].weight >= min && within(m, min, start, m.edges[e].src, depth) && within(
                m,
                min,
                start,
                m.edges[e].dst,
                depth,
            ),
    )
}

/// The entry of an edge.
pub open spec fn near_edge(edge: EdgeModel) -> GraphEdgeModel {
    GraphEdgeModel { src: edge.src, dst: edge.dst, relation: edge.kind, weight: edge.weight }
}

/// The subgraph within `depth` hops of node `start`.
pub open spec fn subgraph_of(m: IndexModel, start: int, depth: nat, min: int) -> SubgraphModel {
    let order = near_order(m, min, start, depth);
    let edges = picked(near_edge_flags(m, min, start, depth));
    SubgraphModel {
        start,
        nodes: Seq::new(order.len(), |k: int| near_node(m, min, start, depth, order[k])),
        edges: Seq::new(edges.len(), |k: int| near_edge(m.edges[edges[k]])),
    }
}

/// The subgraph within `depth` hops of the node that a name stands for.
pub open spec fn neighborhood_of(m: IndexModel, name: Seq<char>, depth: nat, min: int) -> Option<
    SubgraphModel,
> {
    match start_place(m.nodes, name) {
        Some(i) => Some(subgraph_of(m, m.nodes[i].id, depth, min)),
        None => None,
    }
}

/// Every hop keeps what was reached.
pub proof fn lemma_within_grows(m: IndexModel, min: int, start: int, id: int, k: nat, l: nat)
    requires
        within(m, min, start, id, k),
        k <= l,
    ensures
        within(m, min, start, id, l),
    decreases l,
{
    if k < l {
        lemma_within_grows(m, min, start, id, k, (l - 1) as nat);
    }
}

/// What `hops` is: the least number of hops within which the node is reached.
pub proof fn lemma_hops(m: IndexModel, min: int, start: int, id: int, depth: nat)
    ensures
        hops(m, min, start, id, depth) is Some <==> within(m, min, start, id, depth),
        hops(m, min, start, id, depth) matches Some(k) ==> 0 <= k <= depth && within(
            m,
            min,
            start,
            id,
            k as nat,
        ) && (k > 0 ==> !within(m, min, start, id, (k - 1) as nat)),
    decreases depth,
{
    if depth > 0 {
        lemma_hops(m, min, start, id, (depth - 1) as nat);
        if within(m, min, start, id, (depth - 1) as nat) {
            lemma_within_grows(m, min, start, id, (depth - 1) as nat, depth);
        }
    }
}

/// Where one more hop reaches nothing new, no further hop does.
proof fn lemma_settled(m: IndexModel, min: int, start: int, k: nat, l: nat)
    requires
        forall|id: int| #[trigger]
            within(m, min, start, id, k + 1) ==> within(m, min, start, id, k),
        k <= l,
    ensures
        forall|id: int| #[trigger]
            within(m, min, start, id, l) <==> within(m, min, start, id, k),
        forall|id: int| #[trigger] hops(m, min, start, id, l) == hops(m, min, start, id, k),
    decreases l,
{
    if k < l {
        let p = (l - 1) as nat;
        lemma_settled(m, min, start, k, p);
        assert forall|id: int| #[trigger]
            within(m, min, start, id, l) <==> within(m, min, start, id, k) by {
            if within(m, min, start, id, k) {
                lemma_within_grows(m, min, start, id, k, l);
            }
            if within(m, min, start, id, l) {
                lemma_within_step(m, min, start, id, p);
                lemma_within_step(m, min, start, id, k);
                if !within(m, min, start, id, p) {
                    let e = choose|e: int|
                        0 <= e < m.edges.len() && #[trigger] joins(
                            m,
                            min,
                            start,
                            m.edges[e],
                            id,
                            p,
                        );
                    assert(joins(m, min, start, m.edges[e], id, k));
                    assert(within(m, min, start, id, k + 1));
                }
            }
        }
        assert forall|id: int| #[trigger]
            hops(m, min, start, id, l) == hops(m, min, start, id, k) by {
            assert(hops(m, min, start, id, p) == hops(m, min, start, id, k));
            assert(within(m, min, start, id, l) <==> within(m, min, start, id, k));
            assert(within(m, min, start, id, p) <==> within(m, min, start, id, k));
            lemma_hops(m, min, start, id, k);
        }
    } else {
        assert(k == l);
    }
}

/// Whether a pair of places holds the endpoints of edge `e`.
pub open spec fn end_ok(m: IndexModel, e: int, pair: (usize, usize)) -> bool {
    &&& pair.0 < m.nodes.len()
    &&& pair.1 < m.nodes.len()
    &&& m.nodes[pair.0 as int].id == m.edges[e].src
    &&& m.nodes[pair.1 as int].id == m.edges[e].dst
}

/// Whether pairs of places hold the endpoints of the edges.
pub open spec fn ends_ok(m: IndexModel, ends: Seq<(usize, usize)>) -> bool {
    &&& ends.len() == m.edges.len()
    &&& forall|e: int| 0 <= e < ends.len() ==> end_ok(m, e, #[trigger] ends[e])
}

/// The endpoints of the edges, as places of nodes.
pub fn edge_ends(index: &Index) -> (r: Vec<(usize, usize)>)
    requires
        index_ok(index.deep_view()),
    ensures
        ends_ok(index.deep_view(), r@),
{
    let ghost m = index.deep_view();
    let mut out: Vec<(usize, usize)> = Vec::new();
    let mut e: usize = 0;
    while e < index.edges.len()
        invariant
            m == index.deep_view(),
            index_ok(m),
            e <= m.edges.len(),
            out@.len() == e,
            forall|k: int| 0 <= k < e ==> end_ok(m, k, #[trigger] out@[k]),
        decreases m.edges.len() - e,
    {
        assert(m.edges[e as int] == index.edges@[e as int].deep_view());
        let src = match find_node(&index.nodes, index.edges[e].src) {
            Some(s) => s,
            None => 0,
        };
        let dst = match find_node(&index.nodes, index.edges[e].dst) {
            Some(d) => d,
            None => 0,
        };
        assert(m.nodes[src as int] == index.nodes@[src as int].deep_view());
        assert(m.nodes[dst as int] == index.nodes@[dst as int].deep_view());
        out.push((src, dst));
        e += 1;
    }
    out
}

/// Whether the distances are those of the nodes that are within `k` hops.
spec fn reached(m: IndexModel, min: int, start: int, found: Seq<Option<usize>>, k: nat) -> bool {
    &&& found.len() == m.nodes.len()
    &&& forall|i: int|
        0 <= i < found.len() ==> match #[trigger] found[i] {
            Some(d) => hops(m, min, start, m.nodes[i].id, k) == Some(d as int),
            None => hops(m, min, start, m.nodes[i].id, k) is None,
        }
}

/// One more hop: the distances within `hop` hops from those within one hop less.
fn expand(
    index: &Index,
    ends: &Vec<(usize, usize)>,
    min_weight: i128,
    Ghost(start): Ghost<int>,
    found: &Vec<Option<usize>>,
    hop: usize,
) -> (r: (Vec<Option<usize>>, bool))
    requires
        index_ok(index.deep_view()),
        hop > 0,
        reached(index.deep_view(), min_weight as int, start, found@, (hop - 1) as nat),
        ends_ok(index.deep_view(), ends@),
    ensures
        reached(index.deep_view(), min_weight as int, start, r.0@, hop as nat),
        !r.1 ==> r.0@ == found@,
{
    let ghost m = index.deep_view();
    let ghost min = min_weight as int;
    let ghost k = (hop - 1) as nat;
    let mut next: Vec<Option<usize>> = Vec::new();
    let mut i: usize = 0;
    while i < found.len()
        invariant
            i <= found@.len(),
            next@ == found@.take(i as int),
        decreases found@.len() - i,
    {
        next.push(found[i]);
        assert(found@.take(i + 1) =~= found@.take(i as int).push(found@[i as int]));
        i += 1;
    }
    assert(found@.take(found@.len() as int) =~= found@);
    let mut grew = false;
    let mut e: usize = 0;
    proof {
        assert forall|j: int| 0 <= j < found@.len() implies (#[trigger] found@[j] is Some <==> within(
            m,
            min,
            start,
            m.nodes[j].id,
            k,
        )) by {
            lemma_hops(m, min, start, m.nodes[j].id, k);
        }
    }
    while e < index.edges.len()
        invariant
            m == index.deep_view(),
            min == min_weight as int,
            hop > 0,
            k == (hop - 1) as nat,
            index_ok(m),
            found@.len() == m.nodes.len(),
            next@.len() == m.nodes.len(),
            ends_ok(m, ends@),
            e <= m.edges.len(),
            forall|j: int|
                0 <= j < found@.len() ==> (#[trigger] found@[j] is Some <==> within(
                    m,
                    min,
                    start,
                    m.nodes[j].id,
                    k,
                )),
            forall|j: int|
                0 <= j < found@.len() ==> #[trigger] next@[j] == (if found@[j] is Some {
                    found@[j]
                } else if exists|x: int|
                    0 <= x < e && #[trigger] joins(m, min, start, m.edges[x], m.nodes[j].id, k) {
                    Some(hop)
                } else {
                    None
                }),
            !grew ==> next@ == found@,
        decreases m.edges.len() - e,
    {
        let ghost was = next@;
        let edge = &index.edges[e];
        assert(m.edges[e as int] == edge.deep_view());
        let (s, d) = ends[e];
        assert(end_ok(m, e as int, ends@[e as int]));
        if edge.weight >= min_weight {
            if found[s].is_some() && next[d].is_none() {
                next.set(d, Some(hop));
                grew = true;
            }
            if found[d].is_some() && next[s].is_none() {
                next.set(s, Some(hop));
                grew = true;
            }
        }
        proof {
            assert forall|j: int| 0 <= j < found@.len() implies #[trigger] next@[j] == (
            if found@[j] is Some {
                found@[j]
            } else if exists|x: int|
                0 <= x < e + 1 && #[trigger] joins(m, min, start, m.edges[x], m.nodes[j].id, k) {
                Some(hop)
            } else {
                None
            }) by {
                let id = m.nodes[j].id;
                lemma_node_place(m.nodes, j);
                lemma_node_place(m.nodes, s as int);
                lemma_node_place(m.nodes, d as int);
                let here = joins(m, min, start, m.edges[e as int], id, k);
                assert(found@[s as int] is Some <==> within(m, min, start, m.nodes[s as int].id, k));
                assert(found@[d as int] is Some <==> within(m, min, start, m.nodes[d as int].id, k));
                if exists|x: int|
                    0 <= x < e && #[trigger] joins(m, min, start, m.edges[x], id, k) {
                    let x = choose|x: int|
                        0 <= x < e && #[trigger] joins(m, min, start, m.edges[x], id, k);
                    assert(joins(m, min, start, m.edges[x], id, k));
                }
                assert(was[j] == next@[j] || here);
                if here && found@[j] is None {
                    assert(next@[j] == Some(hop));
                }
            }
        }
        e += 1;
    }
    proof {
        assert forall|j: int| 0 <= j < next@.len() implies match #[trigger] next@[j] {
            Some(dist) => hops(m, min, start, m.nodes[j].id, hop as nat) == Some(dist as int),
            None => hops(m, min, start, m.nodes[j].id, hop as nat) is None,
        } by {
            let id = m.nodes[j].id;
            lemma_hops(m, min, start, id, k);
            assert(found@[j] is Some <==> within(m, min, start, id, k));
            lemma_within_step(m, min, start, id, k);
            assert(k + 1 == hop as nat);
        }
    }
    (next, grew)
}

/// The distances of the nodes within `depth` hops of the node at place `at`.
fn distances(index: &Index, at: usize, depth: usize, min_weight: i128) -> (r: Vec<Option<usize>>)
    requires
        index_ok(index.deep_view()),
        at < index.nodes@.len(),
    ensures
        reached(
            index.deep_view(),
            min_weight as int,
            index.deep_view().nodes[at as int].id,
            r@,
            depth as nat,
        ),
{
    let ghost m = index.deep_view();
    let ghost min = min_weight as int;
    let ghost start = m.nodes[at as int].id;
    let ends = edge_ends(index);
    let mut found: Vec<Option<usize>> = Vec::new();
    let mut i: usize = 0;
    while i < index.nodes.len()
        invariant
            m == index.deep_view(),
            index_ok(m),
            at < m.nodes.len(),
            start == m.nodes[at as int].id,
            i <= m.nodes.len(),
            found@.len() == i,
            forall|j: int|
                0 <= j < i ==> match #[trigger] found@[j] {
                    Some(d) => hops(m, min, start, m.nodes[j].id, 0) == Some(d as int),
                    None => hops(m, min, start, m.nodes[j].id, 0) is None,
                },
        decreases m.nodes.len() - i,
    {
        proof {
            lemma_node_place(m.nodes, i as int);
            lemma_node_place(m.nodes, at as int);
        }
        if i == at {
            found.push(Some(0));
        } else {
            found.push(None);
        }
        i += 1;
    }
    let mut hop: usize = 0;
    while hop < depth
        invariant
            m == index.deep_view(),
            min == min_weight as int,
            index_ok(m),
            hop <= depth,
            ends_ok(m, ends@),
            at < m.nodes.len(),
            start == m.nodes[at as int].id,
            reached(m, min, start, found@, hop as nat),
        decreases depth - hop,
    {
        let (next, grew) = expand(index, &ends, min_weight, Ghost(start), &found, hop + 1);
        if !grew {
            proof {
                lemma_all_reached(m, min, start, at as int, found@, hop as nat);
                lemma_settled(m, min, start, hop as nat, depth as nat);
                assert forall|j: int| 0 <= j < found@.len() implies match #[trigger] found@[j] {
                    Some(d) => hops(m, min, start, m.nodes[j].id, depth as nat) == Some(d as int),
                    None => hops(m, min, start, m.nodes[j].id, depth as nat) is None,
                } by {
                    assert(hops(m, min, start, m.nodes[j].id, depth as nat) == hops(
                        m,
                        min,
                        start,
                        m.nodes[j].id,
                        hop as nat,
                    ));
                }
            }
            return found;
        }
        found = next;
        hop += 1;
    }
    found
}

/// Only nodes are reached.
pub proof fn lemma_within_nodes(m: IndexModel, min: int, start: int, id: int, k: nat)
    requires
        index_ok(m),
        has_node(m.nodes, start),
        within(m, min, start, id, k),
    ensures
        has_node(m.nodes, id),
    decreases k,
{
    if k > 0 && !within(m, min, start, id, (k - 1) as nat) {
        lemma_within_step(m, min, start, id, (k - 1) as nat);
        let e = choose|e: int|
            0 <= e < m.edges.len() && #[trigger] joins(
                m,
                min,
                start,
                m.edges[e],
                id,
                (k - 1) as nat,
            );
        assert(has_node(m.nodes, m.edges[e].src) && has_node(m.nodes, m.edges[e].dst));
    } else if k > 0 {
        lemma_within_nodes(m, min, start, id, (k - 1) as nat);
    }
}

proof fn lemma_all_reached(
    m: IndexModel,
    min: int,
    start: int,
    at: int,
    found: Seq<Option<usize>>,
    k: nat,
)
    requires
        index_ok(m),
        0 <= at < m.nodes.len(),
        start == m.nodes[at].id,
        reached(m, min, start, found, k),
        reached(m, min, start, found, k + 1),
    ensures
        forall|id: int| #[trigger]
            within(m, min, start, id, k + 1) ==> within(m, min, start, id, k),
{
    lemma_node_place(m.nodes, at);
    assert forall|id: int| #[trigger] within(m, min, start, id, k + 1) implies within(
        m,
        min,
        start,
        id,
        k,
    ) by {
        lemma_within_nodes(m, min, start, id, k + 1);
        let i = node_place(m.nodes, id);
        lemma_hops(m, min, start, id, k + 1);
        lemma_hops(m, min, start, id, k);
        assert(found[i] is Some);
    }
}

fn near_key(distance: usize, id: i64) -> (r: SortKey)
    ensures
        r.deep_view() == seq![PartModel::Num(distance as int), PartModel::Num(id as int)],
{
    let mut parts: Vec<KeyPart> = Vec::new();
    parts.push(KeyPart::Num(distance as i128));
    parts.push(KeyPart::Num(id as i128));
    let key = SortKey { parts };
    assert(key.deep_view() =~= seq![PartModel::Num(distance as int), PartModel::Num(id as int)]);
    key
}

fn near_nodes(index: &Index, found: &Vec<Option<usize>>, Ghost(min): Ghost<int>, Ghost(start): Ghost<int>, Ghost(depth): Ghost<nat>) -> (r: Vec<GraphNode>)
    requires
        reached(index.deep_view(), min, start, found@, depth),
    ensures
        r.deep_view() == ({
            let order = near_order(index.deep_view(), min, start, depth);
            Seq::new(
                order.len(),
                |k: int| near_node(index.deep_view(), min, start, depth, order[k]),
            )
        }),
{
    let ghost m = index.deep_view();
    let ghost flags = near_flags(m, min, start, depth);
    let ghost picks = picked(flags);
    let ghost km = near_keys(m, min, start, depth, picks);
    let mut near: Vec<usize> = Vec::new();
    let mut keys: Vec<SortKey> = Vec::new();
    let mut i: usize = 0;
    assert(keys.deep_view() =~= Seq::<KeyModel>::empty());
    assert(places(near@) =~= Seq::<int>::empty());
    assert(flags.take(0) =~= Seq::<bool>::empty());
    while i < found.len()
        invariant
            m == index.deep_view(),
            flags == near_flags(m, min, start, depth),
            reached(m, min, start, found@, depth),
            i <= m.nodes.len(),
            places(near@) == picked(flags.take(i as int)),
            forall|k: int| 0 <= k < near@.len() ==> #[trigger] near@[k] < i && found@[near@[k] as int] is Some,
            keys.deep_view() == near_keys(m, min, start, depth, places(near@)),
        decreases m.nodes.len() - i,
    {
        let ghost near0 = places(near@);
        let ghost keys0 = keys.deep_view();
        assert(flags.take(i + 1).drop_last() =~= flags.take(i as int));
        assert(m.nodes[i as int] == index.nodes@[i as int].deep_view());
        proof {
            lemma_hops(m, min, start, m.nodes[i as int].id, depth);
        }
        if let Some(d) = found[i] {
            near.push(i);
            let key = near_key(d, index.nodes[i].id);
            keys.push(key);
            assert(found@[i as int] == Some(d));
            assert(places(near@) =~= near0.push(i as int));
            assert(keys.deep_view() =~= keys0.push(key.deep_view()));
            assert(near_keys(m, min, start, depth, places(near@)) =~= keys0.push(key.deep_view()));
        } else {
            assert(found@[i as int] is None);
        }
        i += 1;
    }
    assert(flags.take(m.nodes.len() as int) =~= flags);
    assert(keys_ok(keys.deep_view()));
    let order = arrange(&near, &keys);
    proof {
        lemma_ordered(picks, km);
        lemma_picked(flags);
    }
    let ghost all_nodes = Seq::new(
        near_order(m, min, start, depth).len(),
        |k: int| near_node(m, min, start, depth, near_order(m, min, start, depth)[k]),
    );
    let mut out: Vec<GraphNode> = Vec::new();
    let mut l: usize = 0;
    assert(out.deep_view() =~= Seq::<GraphNodeModel>::empty());
    while l < order.len()
        invariant
            m == index.deep_view(),
            reached(m, min, start, found@, depth),
            flags == near_flags(m, min, start, depth),
            picks == picked(flags),
            km == near_keys(m, min, start, depth, picks),
            l <= order@.len(),
            order@.len() == picks.len(),
            places(order@) == near_order(m, min, start, depth),
            forall|k: int|
                0 <= k < picks.len() ==> 0 <= #[trigger] picks[k] < flags.len() && flags[picks[k]],
            forall|k: int|
                0 <= k < picks.len() ==> 0 <= order_of(km)[k] < picks.len() && #[trigger] ordered(
                    picks,
                    km,
                )[k] == picks[order_of(km)[k]],
            all_nodes == Seq::new(
                near_order(m, min, start, depth).len(),
                |k: int| near_node(m, min, start, depth, near_order(m, min, start, depth)[k]),
            ),
            out.deep_view() == all_nodes.take(l as int),
        decreases order@.len() - l,
    {
        let ghost before = out.deep_view();
        let i = order[l];
        assert(places(order@)[l as int] == i as int);
        assert(ordered(picks, km)[l as int] == i as int);
        assert(flags[i as int]);
        proof {
            lemma_hops(m, min, start, m.nodes[i as int].id, depth);
        }
        assert(m.nodes[i as int] == index.nodes@[i as int].deep_view());
        assert(found@[i as int] is Some);
        if let Some(d) = found[i] {
            assert(found@[i as int] == Some(d));
            let node = GraphNode {
                id: index.nodes[i].id,
                kind: index.nodes[i].kind.clone(),
                name: index.nodes[i].name.clone(),
                distance: d,
            };
            out.push(node);
            assert(node.deep_view() == near_node(m, min, start, depth, i as int));
            assert(out.deep_view() =~= before.push(node.deep_view()));
            assert(all_nodes.take(l + 1) =~= before.push(node.deep_view()));
        }
        l += 1;
    }
    assert(all_nodes.take(all_nodes.len() as int) =~= all_nodes);
    out
}

fn near_edges(index: &Index, found: &Vec<Option<usize>>, min_weight: i128, Ghost(start): Ghost<int>, Ghost(depth): Ghost<nat>) -> (r: Vec<GraphEdge>)
    requires
        index_ok(index.deep_view()),
        reached(index.deep_view(), min_weight as int, start, found@, depth),
    ensures
        r.deep_view() == ({
            let edges = picked(near_edge_flags(index.deep_view(), min_weight as int, start, depth));
            Seq::new(edges.len(), |k: int| near_edge(index.deep_view().edges[edges[k]]))
        }),
{
    let ghost m = index.deep_view();
    let ghost min = min_weight as int;
    let ghost flags = near_edge_flags(m, min, start, depth);
    let ends = edge_ends(index);
    let mut out: Vec<GraphEdge> = Vec::new();
    let mut e: usize = 0;
    let ghost mut picks = picked(flags.take(0));
    assert(flags.take(0) =~= Seq::<bool>::empty());
    assert(out.deep_view() =~= Seq::<GraphEdgeModel>::empty());
    while e < index.edges.len()
        invariant
            m == index.deep_view(),
            min == min_weight as int,
            flags == near_edge_flags(m, min, start, depth),
            index_ok(m),
            reached(m, min, start, found@, depth),
            ends_ok(m, ends@),
            e <= m.edges.len(),
            picks == picked(flags.take(e as int)),
            out.deep_view() == Seq::new(picks.len(), |k: int| near_edge(m.edges[picks[k]])),
        decreases m.edges.len() - e,
    {
        let ghost before = out.deep_view();
        let ghost picks0 = picks;
        let edge = &index.edges[e];
        assert(m.edges[e as int] == edge.deep_view());
        let (s, d) = ends[e];
        assert(end_ok(m, e as int, ends@[e as int]));
        assert(flags.take(e + 1).drop_last() =~= flags.take(e as int));
        proof {
            lemma_hops(m, min, start, m.nodes[s as int].id, depth);
            lemma_hops(m, min, start, m.nodes[d as int].id, depth);
            assert(found@[s as int] is Some <==> within(m, min, start, m.nodes[s as int].id, depth));
            assert(found@[d as int] is Some <==> within(m, min, start, m.nodes[d as int].id, depth));
            picks = picked(flags.take(e + 1));
        }
        if edge.weight >= min_weight && found[s].is_some() && found[d].is_some() {
            let item = GraphEdge {
                src: edge.src,
                dst: edge.dst,
                relation: edge.kind.clone(),
                weight: edge.weight,
            };
            out.push(item);
            assert(item.deep_view() == near_edge(m.edges[e as int]));
            assert(picks =~= picks0.push(e as int));
            assert(out.deep_view() =~= before.push(item.deep_view()));
        }
        assert(out.deep_view() =~= Seq::new(picks.len(), |k: int| near_edge(m.edges[picks[k]])));
        e += 1;
    }
    assert(flags.take(m.edges.len() as int) =~= flags);
    out
}

/// Build the subgraph within `depth` hops of the node at place `at`.
pub fn neighborhood_at(index: &Index, at: usize, depth: usize, min_weight: i128) -> (r: Subgraph)
    requires
        index_ok(index.deep_view()),
        at < index.nodes@.len(),
    ensures
        r.deep_view() == subgraph_of(
            index.deep_view(),
            index.nodes@[at as int].id as int,
            depth as nat,
            min_weight as int,
        ),
{
    let ghost start = index.deep_view().nodes[at as int].id;
    assert(index.deep_view().nodes[at as int] == index.nodes@[at as int].deep_view());
    let found = distances(index, at, depth, min_weight);
    let nodes = near_nodes(
        index,
        &found,
        Ghost(min_weight as int),
        Ghost(start),
        Ghost(depth as nat),
    );
    let edges = near_edges(index, &found, min_weight, Ghost(start), Ghost(depth as nat));
    let sub = Subgraph { start: index.nodes[at].id, nodes, edges };
    assert(sub.deep_view() =~= subgraph_of(
        index.deep_view(),
        start,
        depth as nat,
        min_weight as int,
    ));
    sub
}

/// Build the subgraph within `depth` hops of `name`, treating edges as undirected for traversal
/// while preserving direction on the edges themselves. `min_weight` (in thousandths) drops
/// low-confidence edges before traversal.
pub fn neighborhood(index: &Index, name: &str, depth: usize, min_weight: i128) -> (r: Option<Subgraph>)
    requires
        index_ok(index.deep_view()),
    ensures
        r.deep_view() == neighborhood_of(
            index.deep_view(),
            name@,
            depth as nat,
            min_weight as int,
        ),
{
    match resolve_start(&index.nodes, name) {
        None => None,
        Some(at) => {
            assert(index.deep_view().nodes[at as int] == index.nodes@[at as int].deep_view());
            Some(neighborhood_at(index, at, depth, min_weight))
        },
    }
}

/// A short label for a node. Note names are file paths, so the file name is shown; other kinds use
/// their name verbatim.
pub open spec fn label_of(node: GraphNodeModel) -> Seq<char> {
    if node.kind == "note"@ {
        match file_name(node.name) {
            Some(name) => name,
            None => node.name,
        }
    } else {
        node.name
    }
}

fn label(node: &GraphNode) -> (r: String)
    ensures
        r@ == label_of(node.deep_view()),
{
    if same_text(&node.kind, "note") {
        match file_name_of(&node.name) {
            Some(name) => name,
            None => node.name.clone(),
        }
    } else {
        node.name.clone()
    }
}

/// A text inside a quoted DOT string: backslashes and quotes have a backslash before them.
pub open spec fn dot_escaped(s: Seq<char>) -> Seq<char> {
    replaced(replaced(s, '\\', "\\\\"@), '"', "\\\""@)
}

fn escape_dot(s: &str) -> (r: String)
    ensures
        r@ == dot_escaped(s@),
{
    replace_char(&replace_char(s, '\\', "\\\\"), '"', "\\\"")
}

/// A text inside a Mermaid label: quotes are written as entities, and the brackets and braces that
/// break its parser are left out.
pub open spec fn mermaid_escaped(s: Seq<char>) -> Seq<char> {
    let quoted = replaced(s, '"', "&quot;"@);
    replaced(replaced(replaced(replaced(quoted, '[', ""@), ']', ""@), '{', ""@), '}', ""@)
}

fn escape_mermaid(s: &str) -> (r: String)
    ensures
        r@ == mermaid_escaped(s@),
{
    let quoted = replace_char(s, '"', "&quot;");
    let a = replace_char(&quoted, '[', "");
    let b = replace_char(&a, ']', "");
    let c = replace_char(&b, '{', "");
    replace_char(&c, '}', "")
}

/// The fill colour of a kind of node.
pub open spec fn fill_of(kind: Seq<char>) -> Seq<char> {
    if kind == "project"@ {
        "#a6e3a1"@
    } else if kind == "entity"@ {
        "#89b4fa"@
    } else if kind == "note"@ {
        "#f9e2af"@
    } else if kind == "loop"@ {
        "#f38ba8"@
    } else {
        "#cdd6f4"@
    }
}

fn fill(kind: &str) -> (r: &'static str)
    ensures
        r@ == fill_of(kind@),
{
    if same_text(kind, "project") {
        "#a6e3a1"
    } else if same_text(kind, "entity") {
        "#89b4fa"
    } else if same_text(kind, "note") {
        "#f9e2af"
    } else if same_text(kind, "loop") {
        "#f38ba8"
    } else {
        "#cdd6f4"
    }
}

/// The DOT line of a node.
pub open spec fn dot_node(node: GraphNodeModel, start: int) -> Seq<char> {
    "  n"@ + decimal_int(node.id) + " [label=\""@ + dot_escaped(label_of(node))
        + "\", fillcolor=\""@ + fill_of(node.kind) + "\", shape="@ + (if node.id == start {
        "doublecircle"@
    } else {
        "box"@
    }) + "];\n"@
}

/// The DOT line of an edge. Heavier edges are drawn with a wider pen.
pub open spec fn dot_edge(edge: GraphEdgeModel, pen: Seq<char>) -> Seq<char> {
    "  n"@ + decimal_int(edge.src) + " -> n"@ + decimal_int(edge.dst) + " [label=\""@ + dot_escaped(
        edge.relation,
    ) + "\", penwidth="@ + pen + "];\n"@
}

/// The DOT lines of the first `n` nodes.
pub open spec fn dot_nodes(sub: SubgraphModel, n: int) -> Seq<char>
    decreases n,
{
    if n <= 0 {
        Seq::empty()
    } else {
        dot_nodes(sub, n - 1) + dot_node(sub.nodes[n - 1], sub.start)
    }
}

/// The DOT lines of the first `n` edges.
pub open spec fn dot_edges(sub: SubgraphModel, pens: Seq<Seq<char>>, n: int) -> Seq<char>
    decreases n,
{
    if n <= 0 {
        Seq::empty()
    } else {
        dot_edges(sub, pens, n - 1) + dot_edge(sub.edges[n - 1], pens[n - 1])
    }
}

/// A subgraph in DOT.
pub open spec fn dot_text(sub: SubgraphModel, pens: Seq<Seq<char>>) -> Seq<char> {
    "digraph raft {\n"@ + "  rankdir=LR;\n"@
        + "  node [style=filled, fontname=\"monospace\"];\n"@ + dot_nodes(
        sub,
        sub.nodes.len() as int,
    ) + dot_edges(sub, pens, sub.edges.len() as int) + "}\n"@
}

/// Render the subgraph as Graphviz DOT. `pens` holds the pen width of each edge, as written.
pub fn to_dot(sub: &Subgraph, pens: &Vec<String>) -> (r: String)
    requires
        pens@.len() == sub.edges@.len(),
    ensures
        r@ == dot_text(sub.deep_view(), pens.deep_view()),
{
    let ghost m = sub.deep_view();
    let ghost widths = pens.deep_view();
    let mut out = "digraph raft {\n".to_owned();
    out.append("  rankdir=LR;\n");
    out.append("  node [style=filled, fontname=\"monospace\"];\n");
    let ghost head = out@;
    assert(head + dot_nodes(m, 0) =~= head);
    let mut i: usize = 0;
    while i < sub.nodes.len()
        invariant
            m == sub.deep_view(),
            i <= m.nodes.len(),
            out@ == head + dot_nodes(m, i as int),
        decreases m.nodes.len() - i,
    {
        let ghost before = out@;
        let node = &sub.nodes[i];
        assert(m.nodes[i as int] == node.deep_view());
        let id = decimal_of_int(node.id);
        let text = escape_dot(&label(node));
        let mut line = "  n".to_owned();
        line.append(&id);
        line.append(" [label=\"");
        line.append(&text);
        line.append("\", fillcolor=\"");
        line.append(fill(&node.kind));
        line.append("\", shape=");
        if node.id == sub.start {
            line.append("doublecircle");
        } else {
            line.append("box");
        }
        line.append("];\n");
        assert(line@ == dot_node(m.nodes[i as int], m.start));
        out.append(&line);
        assert(out@ =~= head + dot_nodes(m, i + 1));
        i += 1;
    }
    let ghost body = out@;
    assert(body + dot_edges(m, widths, 0) =~= body);
    let mut e: usize = 0;
    while e < sub.edges.len()
        invariant
            m == sub.deep_view(),
            widths == pens.deep_view(),
            pens@.len() == sub.edges@.len(),
            e <= m.edges.len(),
            out@ == body + dot_edges(m, widths, e as int),
        decreases m.edges.len() - e,
    {
        let edge = &sub.edges[e];
        assert(m.edges[e as int] == edge.deep_view());
        assert(widths[e as int] == pens@[e as int]@);
        let src = decimal_of_int(edge.src);
        let dst = decimal_of_int(edge.dst);
        let text = escape_dot(&edge.relation);
        let mut line = "  n".to_owned();
        line.append(&src);
        line.append(" -> n");
        line.append(&dst);
        line.append(" [label=\"");
        line.append(&text);
        line.append("\", penwidth=");
        line.append(&pens[e]);
        line.append("];\n");
        assert(line@ == dot_edge(m.edges[e as int], widths[e as int]));
        out.append(&line);
        assert(out@ =~= body + dot_edges(m, widths, e + 1));
        e += 1;
    }
    out.append("}\n");
    out
}

/// The Mermaid line of a node: its shape tells its kind, and the start node is framed twice.
pub open spec fn mermaid_node(node: GraphNodeModel, start: int) -> Seq<char> {
    let head = "  n"@ + decimal_int(node.id);
    let text = mermaid_escaped(label_of(node));
    if node.id == start {
        head + "(((\""@ + text + "\")))\n"@
    } else if node.kind == "note"@ {
        head + "[\""@ + text + "\"]\n"@
    } else if node.kind == "loop"@ {
        head + ">\""@ + text + "\"]\n"@
    } else {
        head + "(\""@ + text + "\")\n"@
    }
}

/// The Mermaid line of an edge.
pub open spec fn mermaid_edge(edge: GraphEdgeModel) -> Seq<char> {
    "  n"@ + decimal_int(edge.src) + " -->|"@ + mermaid_escaped(edge.relation) + "| n"@ + decimal_int(
        edge.dst,
    ) + "\n"@
}

/// The Mermaid lines of the first `n` nodes.
pub open spec fn mermaid_nodes(sub: SubgraphModel, n: int) -> Seq<char>
    decreases n,
{
    if n <= 0 {
        Seq::empty()
    } else {
        mermaid_nodes(sub, n - 1) + mermaid_node(sub.nodes[n - 1], sub.start)
    }
}

/// The Mermaid lines of the first `n` edges.
pub open spec fn mermaid_edges(sub: SubgraphModel, n: int) -> Seq<char>
    decreases n,
{
    if n <= 0 {
        Seq::empty()
    } else {
        mermaid_edges(sub, n - 1) + mermaid_edge(sub.edges[n - 1])
    }
}

/// A subgraph as a Mermaid flowchart.
pub open spec fn mermaid_text(sub: SubgraphModel) -> Seq<char> {
    "graph LR\n"@ + mermaid_nodes(sub, sub.nodes.len() as int) + mermaid_edges(
        sub,
        sub.edges.len() as int,
    )
}

/// Render the subgraph as a Mermaid flowchart.
pub fn to_mermaid(sub: &Subgraph) -> (r: String)
    ensures
        r@ == mermaid_text(sub.deep_view()),
{
    let ghost m = sub.deep_view();
    let mut out = "graph LR\n".to_owned();
    let ghost head = out@;
    assert(head + mermaid_nodes(m, 0) =~= head);
    let mut i: usize = 0;
    while i < sub.nodes.len()
        invariant
            m == sub.deep_view(),
            i <= m.nodes.len(),
            out@ == head + mermaid_nodes(m, i as int),
        decreases m.nodes.len() - i,
    {
        let node = &sub.nodes[i];
        assert(m.nodes[i as int] == node.deep_view());
        let id = decimal_of_int(node.id);
        let text = escape_mermaid(&label(node));
        let mut line = "  n".to_owned();
        line.append(&id);
        if node.id == sub.start {
            line.append("(((\"");
            line.append(&text);
            line.append("\")))\n");
        } else if same_text(&node.kind, "note") {
            line.append("[\"");
            line.append(&text);
            line.append("\"]\n");
        } else if same_text(&node.kind, "loop") {
            line.append(">\"");
            line.append(&text);
            line.append("\"]\n");
        } else {
            line.append("(\"");
            line.append(&text);
            line.append("\")\n");
        }
        assert(line@ == mermaid_node(m.nodes[i as int], m.start));
        out.append(&line);
        assert(out@ =~= head + mermaid_nodes(m, i + 1));
        i += 1;
    }
    let ghost body = out@;
    assert(body + mermaid_edges(m, 0) =~= body);
    let mut e: usize = 0;
    while e < sub.edges.len()
        invariant
            m == sub.deep_view(),
            e <= m.edges.len(),
            out@ == body + mermaid_edges(m, e as int),
        decreases m.edges.len() - e,
    {
        let edge = &sub.edges[e];
        assert(m.edges[e as int] == edge.deep_view());
        let src = decimal_of_int(edge.src);
        let dst = decimal_of_int(edge.dst);
        let text = escape_mermaid(&edge.relation);
        let mut line = "  n".to_owned();
        line.append(&src);
        line.append(" -->|");
        line.append(&text);
        line.append("| n");
        line.append(&dst);
        line.append("\n");
        assert(line@ == mermaid_edge(m.edges[e as int]));
        out.append(&line);
        assert(out@ =~= body + mermaid_edges(m, e + 1));
        e += 1;
    }
    out
}

/// Whether a subgraph lists node `id`, `distance` hops away.
pub open spec fn lists_at(sub: SubgraphModel, id: int, distance: int) -> bool {
    exists|k: int|
        0 <= k < sub.nodes.len() && (#[trigger] sub.nodes[k]).id == id && sub.nodes[k].distance
            == distance
}

/// Whether a subgraph lists node `id`.
pub open spec fn lists_id(sub: SubgraphModel, id: int) -> bool {
    exists|k: int| 0 <= k < sub.nodes.len() && (#[trigger] sub.nodes[k]).id == id
}

pub proof fn lemma_near_order(m: IndexModel, min: int, start: int, depth: nat)
    ensures
        forall|k: int|
            0 <= k < near_order(m, min, start, depth).len() ==> 0 <= #[trigger] near_order(
                m,
                min,
                start,
                depth,
            )[k] < m.nodes.len() && within(
                m,
                min,
                start,
                m.nodes[near_order(m, min, start, depth)[k]].id,
                depth,
            ),
        forall|i: int|
            0 <= i < m.nodes.len() && within(m, min, start, m.nodes[i].id, depth)
                ==> #[trigger] near_order(m, min, start, depth).contains(i),
        ({
            let picks = picked(near_flags(m, min, start, depth));
            let km = near_keys(m, min, start, depth, picks);
            is_order(km, order_of(km)) && forall|k: int|
                0 <= k < picks.len() ==> 0 <= order_of(km)[k] < picks.len()
                    && #[trigger] near_order(m, min, start, depth)[k] == picks[order_of(km)[k]]
        }),
{
    let flags = near_flags(m, min, start, depth);
    let picks = picked(flags);
    let km = near_keys(m, min, start, depth, picks);
    lemma_picked(flags);
    assert(keys_ok(km));
    lemma_ordered(picks, km);
    assert forall|i: int|
        0 <= i < m.nodes.len() && within(m, min, start, m.nodes[i].id, depth)
            implies #[trigger] near_order(m, min, start, depth).contains(i) by {
        assert(flags[i]);
        assert(picks.contains(i));
    }
}

/// The neighborhood is exact: it lists the nodes within `depth` hops and no others, each with the
/// least number of hops that leads to it; the start node is listed with distance 0.
pub proof fn law_neighborhood_is_exact(m: IndexModel, min: int, at: int, depth: nat, id: int, d: nat)
    requires
        index_ok(m),
        0 <= at < m.nodes.len(),
    ensures
        lists_at(subgraph_of(m, m.nodes[at].id, depth, min), m.nodes[at].id, 0),
        lists_at(subgraph_of(m, m.nodes[at].id, depth, min), id, d as int) <==> d <= depth && within(
            m,
            min,
            m.nodes[at].id,
            id,
            d,
        ) && (d > 0 ==> !within(m, min, m.nodes[at].id, id, (d - 1) as nat)),
{
    let start = m.nodes[at].id;
    let sub = subgraph_of(m, start, depth, min);
    let order = near_order(m, min, start, depth);
    lemma_near_order(m, min, start, depth);
    lemma_node_place(m.nodes, at);
    lemma_within_grows(m, min, start, start, 0, depth);
    assert(order.contains(at));
    let k0 = choose|k: int| 0 <= k < order.len() && order[k] == at;
    lemma_hops(m, min, start, start, depth);
    if hops(m, min, start, start, depth)->0 > 0 {
        lemma_within_grows(
            m,
            min,
            start,
            start,
            0,
            (hops(m, min, start, start, depth)->0 - 1) as nat,
        );
    }
    assert(sub.nodes[k0].id == start && sub.nodes[k0].distance == 0);
    lemma_hops(m, min, start, id, depth);
    if lists_at(sub, id, d as int) {
        let k = choose|k: int|
            0 <= k < sub.nodes.len() && (#[trigger] sub.nodes[k]).id == id && sub.nodes[k].distance
                == d as int;
        assert(m.nodes[order[k]].id == id);
    }
    if d <= depth && within(m, min, start, id, d) && (d > 0 ==> !within(
        m,
        min,
        start,
        id,
        (d - 1) as nat,
    )) {
        lemma_within_grows(m, min, start, id, d, depth);
        lemma_within_nodes(m, min, start, id, depth);
        let i = node_place(m.nodes, id);
        assert(order.contains(i));
        let k = choose|k: int| 0 <= k < order.len() && order[k] == i;
        let h = hops(m, min, start, id, depth)->0;
        if h < d {
            lemma_within_grows(m, min, start, id, h as nat, (d - 1) as nat);
        }
        if d < h {
            lemma_within_grows(m, min, start, id, d, (h - 1) as nat);
        }
        assert(sub.nodes[k].id == id && sub.nodes[k].distance == d as int);
    }
}

/// More depth only adds: what a neighborhood lists, every deeper one lists too.
pub proof fn law_depth_only_adds(m: IndexModel, min: int, at: int, depth: nat, deeper: nat, id: int)
    requires
        index_ok(m),
        0 <= at < m.nodes.len(),
        depth <= deeper,
        lists_id(subgraph_of(m, m.nodes[at].id, depth, min), id),
    ensures
        lists_id(subgraph_of(m, m.nodes[at].id, deeper, min), id),
{
    let start = m.nodes[at].id;
    let sub = subgraph_of(m, start, depth, min);
    lemma_near_order(m, min, start, depth);
    lemma_near_order(m, min, start, deeper);
    lemma_node_place(m.nodes, at);
    let k = choose|k: int| 0 <= k < sub.nodes.len() && (#[trigger] sub.nodes[k]).id == id;
    let i = near_order(m, min, start, depth)[k];
    lemma_within_grows(m, min, start, id, depth, deeper);
    assert(near_order(m, min, start, deeper).contains(i));
    let l = choose|l: int|
        0 <= l < near_order(m, min, start, deeper).len() && near_order(m, min, start, deeper)[l] == i;
    assert(subgraph_of(m, start, deeper, min).nodes[l].id == id);
}

proof fn lemma_weight_only_removes(m: IndexModel, min: int, more: int, start: int, id: int, k: nat)
    requires
        min <= more,
        within(m, more, start, id, k),
    ensures
        within(m, min, start, id, k),
    decreases k,
{
    if k > 0 {
        let p = (k - 1) as nat;
        lemma_within_step(m, more, start, id, p);
        lemma_within_step(m, min, start, id, p);
        if within(m, more, start, id, p) {
            lemma_weight_only_removes(m, min, more, start, id, p);
        } else {
            let e = choose|e: int|
                0 <= e < m.edges.len() && #[trigger] joins(m, more, start, m.edges[e], id, p);
            lemma_weight_only_removes(m, min, more, start, other_end(m.edges[e], id), p);
            assert(joins(m, min, start, m.edges[e], id, p));
        }
    }
}

/// A higher weight bound only removes: what a neighborhood lists under it, the neighborhood under
/// a lower bound lists too.
pub proof fn law_weight_only_removes(m: IndexModel, min: int, more: int, at: int, depth: nat, id: int)
    requires
        index_ok(m),
        0 <= at < m.nodes.len(),
        min <= more,
        lists_id(subgraph_of(m, m.nodes[at].id, depth, more), id),
    ensures
        lists_id(subgraph_of(m, m.nodes[at].id, depth, min), id),
{
    let start = m.nodes[at].id;
    let sub = subgraph_of(m, start, depth, more);
    lemma_near_order(m, min, start, depth);
    lemma_near_order(m, more, start, depth);
    let k = choose|k: int| 0 <= k < sub.nodes.len() && (#[trigger] sub.nodes[k]).id == id;
    let i = near_order(m, more, start, depth)[k];
    lemma_weight_only_removes(m, min, more, start, id, depth);
    assert(near_order(m, min, start, depth).contains(i));
    let l = choose|l: int|
        0 <= l < near_order(m, min, start, depth).len() && near_order(m, min, start, depth)[l] == i;
    assert(subgraph_of(m, start, depth, min).nodes[l].id == id);
}

/// Whether an edge has enough weight and both its endpoints are listed.
pub open spec fn stays_inside(sub: SubgraphModel, edge: GraphEdgeModel, min: int) -> bool {
    edge.weight >= min && lists_id(sub, edge.src) && lists_id(sub, edge.dst)
}

/// Whether node `a` may be listed before node `b`.
pub open spec fn nearer(a: GraphNodeModel, b: GraphNodeModel) -> bool {
    a.distance < b.distance || a.distance == b.distance && a.id <= b.id
}

/// Every listed edge has the weight that was asked for, and both its endpoints are listed.
pub proof fn law_edges_stay_inside(m: IndexModel, min: int, at: int, depth: nat)
    requires
        index_ok(m),
        0 <= at < m.nodes.len(),
    ensures
        forall|k: int|
            0 <= k < subgraph_of(m, m.nodes[at].id, depth, min).edges.len() ==> stays_inside(
                subgraph_of(m, m.nodes[at].id, depth, min),
                #[trigger] subgraph_of(m, m.nodes[at].id, depth, min).edges[k],
                min,
            ),
{
    let start = m.nodes[at].id;
    let sub = subgraph_of(m, start, depth, min);
    let flags = near_edge_flags(m, min, start, depth);
    let order = near_order(m, min, start, depth);
    lemma_picked(flags);
    lemma_near_order(m, min, start, depth);
    lemma_node_place(m.nodes, at);
    assert forall|k: int| 0 <= k < sub.edges.len() implies stays_inside(
        sub,
        #[trigger] sub.edges[k],
        min,
    ) by {
        let e = picked(flags)[k];
        let src = m.edges[e].src;
        let dst = m.edges[e].dst;
        lemma_within_nodes(m, min, start, src, depth);
        lemma_within_nodes(m, min, start, dst, depth);
        assert(order.contains(node_place(m.nodes, src)));
        assert(order.contains(node_place(m.nodes, dst)));
        let a = choose|a: int| 0 <= a < order.len() && order[a] == node_place(m.nodes, src);
        let b = choose|b: int| 0 <= b < order.len() && order[b] == node_place(m.nodes, dst);
        assert(sub.nodes[a].id == src);
        assert(sub.nodes[b].id == dst);
    }
}

/// The nodes are listed by distance, and by identity where the distance is the same.
pub proof fn law_nodes_are_ordered(m: IndexModel, min: int, start: int, depth: nat)
    ensures
        forall|k: int, l: int|
            0 <= k < l < subgraph_of(m, start, depth, min).nodes.len() ==> nearer(
                #[trigger] subgraph_of(m, start, depth, min).nodes[k],
                #[trigger] subgraph_of(m, start, depth, min).nodes[l],
            ),
{
    let sub = subgraph_of(m, start, depth, min);
    let picks = picked(near_flags(m, min, start, depth));
    let km = near_keys(m, min, start, depth, picks);
    lemma_near_order(m, min, start, depth);
    assert forall|k: int, l: int| 0 <= k < l < sub.nodes.len() implies nearer(
        #[trigger] sub.nodes[k],
        #[trigger] sub.nodes[l],
    ) by {
        let order = order_of(km);
        assert(near_order(m, min, start, depth)[k] == picks[order[k]]);
        assert(near_order(m, min, start, depth)[l] == picks[order[l]]);
        assert(before(km, order[k], order[l]));
        let a = km[order[k]];
        let b = km[order[l]];
        assert(key_le(a, b));
        assert(a[0] == PartModel::Num(sub.nodes[k].distance) && a[1] == PartModel::Num(
            sub.nodes[k].id,
        ));
        assert(b[0] == PartModel::Num(sub.nodes[l].distance) && b[1] == PartModel::Num(
            sub.nodes[l].id,
        ));
        assert(a.skip(1)[0] == a[1] && b.skip(1)[0] == b[1]);
        assert(key_le(a.skip(1), b.skip(1)) ==> crate::order::part_le(a[1], b[1]));
    }
}

} // verus!
