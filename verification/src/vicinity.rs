//! What a neighborhood promises: it holds what walks over the edges of the index reach, and the
//! edges between what it holds.

use vstd::prelude::*;

use crate::extract::canonical;
use crate::graph::{
    lemma_hops, lemma_near_order, lemma_within_grows, lemma_within_nodes, near_edge_flags,
    near_flags, near_keys, near_node, near_order, neighborhood_of, other_end, start_place,
    subgraph_of, touches, within, GraphEdgeModel, GraphNodeModel, SubgraphModel,
};
use crate::order::order_of;
use crate::recall::{is_first_called, is_meant, lemma_first_named};
use crate::select::{lemma_picked, picked};
use crate::store::{index_ok, lemma_node_place, node_place, IndexModel, NodeModel};

verus! {

/// Whether an edge of enough weight joins two nodes, in either direction.
pub open spec fn neighbors(m: IndexModel, min: int, a: int, b: int) -> bool {
    exists|e: int|
        0 <= e < m.edges.len() && (#[trigger] m.edges[e]).weight >= min && (m.edges[e].src == a
            && m.edges[e].dst == b || m.edges[e].src == b && m.edges[e].dst == a)
}

/// Whether a list of nodes is a walk from one node to another: each is a neighbor of the next.
pub open spec fn is_walk(m: IndexModel, min: int, from: int, to: int, walk: Seq<int>) -> bool {
    &&& walk.len() > 0
    &&& walk[0] == from
    &&& walk.last() == to
    &&& forall|k: int| 0 < k < walk.len() ==> neighbors(m, min, walk[k - 1], #[trigger] walk[k])
}

proof fn lemma_step(m: IndexModel, min: int, start: int, a: int, b: int, k: nat)
    requires
        within(m, min, start, a, k),
        neighbors(m, min, a, b),
    ensures
        within(m, min, start, b, k + 1),
{
    let e = choose|e: int|
        0 <= e < m.edges.len() && (#[trigger] m.edges[e]).weight >= min && (m.edges[e].src == a
            && m.edges[e].dst == b || m.edges[e].src == b && m.edges[e].dst == a);
    assert(touches(m.edges[e], min, b));
    assert((k + 1 - 1) as nat == k);
    if other_end(m.edges[e], b) != a {
        assert(m.edges[e].src == b && m.edges[e].dst == b || a == b);
        lemma_within_grows(m, min, start, a, k, k + 1);
    }
}

/// A walk leads within as many hops as it has steps.
proof fn lemma_walk_reaches(m: IndexModel, min: int, from: int, to: int, walk: Seq<int>)
    requires
        is_walk(m, min, from, to, walk),
    ensures
        within(m, min, from, to, (walk.len() - 1) as nat),
    decreases walk.len(),
{
    if walk.len() > 1 {
        let less = walk.drop_last();
        assert(less.last() == walk[walk.len() - 2]);
        assert forall|k: int| 0 < k < less.len() implies neighbors(
            m,
            min,
            less[k - 1],
            #[trigger] less[k],
        ) by {
            assert(walk[k] == less[k] && walk[k - 1] == less[k - 1]);
        }
        lemma_walk_reaches(m, min, from, less.last(), less);
        assert(neighbors(m, min, walk[walk.len() - 2], walk[walk.len() - 1]));
        lemma_step(m, min, from, less.last(), to, (less.len() - 1) as nat);
    }
}

/// What is within some hops is reached by a walk of no more steps.
proof fn lemma_reached_by_walk(m: IndexModel, min: int, from: int, to: int, k: nat) -> (walk: Seq<
    int,
>)
    requires
        within(m, min, from, to, k),
    ensures
        is_walk(m, min, from, to, walk),
        walk.len() <= k + 1,
    decreases k,
{
    if k == 0 {
        seq![from]
    } else if within(m, min, from, to, (k - 1) as nat) {
        lemma_reached_by_walk(m, min, from, to, (k - 1) as nat)
    } else {
        let e = choose|e: int|
            0 <= e < m.edges.len() && #[trigger] touches(m.edges[e], min, to) && within(
                m,
                min,
                from,
                other_end(m.edges[e], to),
                (k - 1) as nat,
            );
        let mid = other_end(m.edges[e], to);
        let less = lemma_reached_by_walk(m, min, from, mid, (k - 1) as nat);
        let walk = less.push(to);
        assert(m.edges[e].weight >= min);
        assert(neighbors(m, min, mid, to));
        assert forall|j: int| 0 < j < walk.len() implies neighbors(
            m,
            min,
            walk[j - 1],
            #[trigger] walk[j],
        ) by {
            if j < less.len() {
                assert(walk[j] == less[j] && walk[j - 1] == less[j - 1]);
            } else {
                assert(walk[j - 1] == less.last());
            }
        }
        walk
    }
}

/// Whether an entry is that of node `i` of the index.
pub open spec fn is_entry_at(m: IndexModel, item: GraphNodeModel, i: int) -> bool {
    &&& 0 <= i < m.nodes.len()
    &&& item.id == m.nodes[i].id
    &&& item.kind == m.nodes[i].kind
    &&& item.name == m.nodes[i].name
}

/// Whether an entry is that of some node of the index, as far away as the shortest walk to it.
pub open spec fn is_near(
    m: IndexModel,
    min: int,
    start: int,
    depth: nat,
    item: GraphNodeModel,
) -> bool {
    &&& exists|i: int| is_entry_at(m, item, i)
    &&& 0 <= item.distance <= depth
    &&& exists|walk: Seq<int>| #[trigger]
        is_walk(m, min, start, item.id, walk) && walk.len() == item.distance + 1
    &&& forall|walk: Seq<int>| #[trigger]
        is_walk(m, min, start, item.id, walk) ==> walk.len() >= item.distance + 1
}

proof fn lemma_near(m: IndexModel, min: int, start: int, depth: nat, i: int)
    requires
        0 <= i < m.nodes.len(),
        within(m, min, start, m.nodes[i].id, depth),
    ensures
        is_near(m, min, start, depth, near_node(m, min, start, depth, i)),
{
    let item = near_node(m, min, start, depth, i);
    let id = m.nodes[i].id;
    lemma_hops(m, min, start, id, depth);
    let d = item.distance;
    assert(is_entry_at(m, item, i));
    assert forall|walk: Seq<int>| #[trigger] is_walk(m, min, start, id, walk) implies walk.len() >= d
        + 1 by {
        lemma_walk_reaches(m, min, start, id, walk);
        if walk.len() <= d {
            lemma_within_grows(m, min, start, id, (walk.len() - 1) as nat, (d - 1) as nat);
        }
    }
    let walk = lemma_reached_by_walk(m, min, start, id, d as nat);
    assert(is_walk(m, min, start, id, walk) && walk.len() == d + 1);
}

/// A neighborhood lists the nodes that a walk of at most `depth` steps reaches, over edges of enough
/// weight in either direction, and no others. Each has its kind and name, and its distance is the
/// length of the shortest walk.
pub proof fn law_neighborhood_is_what_walks_reach(m: IndexModel, at: int, depth: nat, min: int)
    requires
        index_ok(m),
        0 <= at < m.nodes.len(),
    ensures
        subgraph_of(m, m.nodes[at].id, depth, min).start == m.nodes[at].id,
        forall|k: int|
            0 <= k < subgraph_of(m, m.nodes[at].id, depth, min).nodes.len() ==> is_near(
                m,
                min,
                m.nodes[at].id,
                depth,
                #[trigger] subgraph_of(m, m.nodes[at].id, depth, min).nodes[k],
            ),
        forall|id: int, walk: Seq<int>| #[trigger]
            is_walk(m, min, m.nodes[at].id, id, walk) && walk.len() <= depth + 1 ==> exists|k: int|
                0 <= k < subgraph_of(m, m.nodes[at].id, depth, min).nodes.len() && (
                #[trigger] subgraph_of(m, m.nodes[at].id, depth, min).nodes[k]).id == id,
{
    let start = m.nodes[at].id;
    let sub = subgraph_of(m, start, depth, min);
    let order = near_order(m, min, start, depth);
    lemma_near_order(m, min, start, depth);
    lemma_node_place(m.nodes, at);
    assert forall|k: int| 0 <= k < sub.nodes.len() implies is_near(
        m,
        min,
        start,
        depth,
        #[trigger] sub.nodes[k],
    ) by {
        lemma_near(m, min, start, depth, order[k]);
    }
    assert forall|id: int, walk: Seq<int>| #[trigger]
        is_walk(m, min, start, id, walk) && walk.len() <= depth + 1 implies exists|k: int|
        0 <= k < sub.nodes.len() && (#[trigger] sub.nodes[k]).id == id by {
        lemma_walk_reaches(m, min, start, id, walk);
        lemma_within_grows(m, min, start, id, (walk.len() - 1) as nat, depth);
        lemma_within_nodes(m, min, start, id, depth);
        let i = node_place(m.nodes, id);
        assert(order.contains(i));
        let k = choose|k: int| 0 <= k < order.len() && order[k] == i;
        assert(sub.nodes[k].id == id);
    }
}

/// No node is listed twice.
pub proof fn law_neighborhood_lists_nodes_once(m: IndexModel, start: int, depth: nat, min: int)
    requires
        index_ok(m),
    ensures
        forall|k: int, l: int|
            0 <= k < l < subgraph_of(m, start, depth, min).nodes.len() ==> (
            #[trigger] subgraph_of(m, start, depth, min).nodes[k]).id != (#[trigger] subgraph_of(
                m,
                start,
                depth,
                min,
            ).nodes[l]).id,
{
    let sub = subgraph_of(m, start, depth, min);
    let picks = picked(near_flags(m, min, start, depth));
    let km = near_keys(m, min, start, depth, picks);
    lemma_picked(near_flags(m, min, start, depth));
    lemma_near_order(m, min, start, depth);
    assert forall|k: int, l: int| 0 <= k < l < sub.nodes.len() implies (
    #[trigger] sub.nodes[k]).id != (#[trigger] sub.nodes[l]).id by {
        let order = order_of(km);
        assert(near_order(m, min, start, depth)[k] == picks[order[k]]);
        assert(near_order(m, min, start, depth)[l] == picks[order[l]]);
        assert(crate::order::before(km, order[k], order[l]));
        let a = order[k];
        let b = order[l];
        assert(a != b);
        if a < b {
            assert(picks[a] < picks[b]);
            assert(m.nodes[picks[a]].id < m.nodes[picks[b]].id);
        } else {
            assert(picks[b] < picks[a]);
            assert(m.nodes[picks[b]].id < m.nodes[picks[a]].id);
        }
    }
}

/// Whether a listed edge is edge `e` of the index.
pub open spec fn is_edge_at(m: IndexModel, item: GraphEdgeModel, e: int) -> bool {
    &&& 0 <= e < m.edges.len()
    &&& item.src == m.edges[e].src
    &&& item.dst == m.edges[e].dst
    &&& item.relation == m.edges[e].kind
    &&& item.weight == m.edges[e].weight
}

/// Whether a node is listed.
pub open spec fn is_listed(sub: SubgraphModel, id: int) -> bool {
    exists|k: int| 0 <= k < sub.nodes.len() && (#[trigger] sub.nodes[k]).id == id
}

/// Whether edge `e` of the index has enough weight and both its ends are listed.
pub open spec fn is_inside(m: IndexModel, sub: SubgraphModel, min: int, e: int) -> bool {
    &&& 0 <= e < m.edges.len()
    &&& m.edges[e].weight >= min
    &&& is_listed(sub, m.edges[e].src)
    &&& is_listed(sub, m.edges[e].dst)
}

/// The edges of a neighborhood are the edges of the index that have enough weight and whose ends
/// are both listed, in their order, each with its ends, its kind and its weight.
pub proof fn law_neighborhood_edges_are_those_inside(
    m: IndexModel,
    at: int,
    depth: nat,
    min: int,
) -> (places: Seq<int>)
    requires
        index_ok(m),
        0 <= at < m.nodes.len(),
    ensures
        places.len() == subgraph_of(m, m.nodes[at].id, depth, min).edges.len(),
        forall|k: int|
            0 <= k < places.len() ==> is_edge_at(
                m,
                subgraph_of(m, m.nodes[at].id, depth, min).edges[k],
                #[trigger] places[k],
            ) && is_inside(m, subgraph_of(m, m.nodes[at].id, depth, min), min, places[k]),
        forall|k: int, l: int|
            0 <= k < l < places.len() ==> #[trigger] places[k] < #[trigger] places[l],
        forall|e: int| #[trigger]
            is_inside(m, subgraph_of(m, m.nodes[at].id, depth, min), min, e) ==> places.contains(
                e,
            ),
{
    let start = m.nodes[at].id;
    let sub = subgraph_of(m, start, depth, min);
    let flags = near_edge_flags(m, min, start, depth);
    let order = near_order(m, min, start, depth);
    let places = picked(flags);
    lemma_picked(flags);
    lemma_near_order(m, min, start, depth);
    lemma_node_place(m.nodes, at);
    assert forall|id: int| #[trigger] is_listed(sub, id) <==> within(m, min, start, id, depth) by {
        if is_listed(sub, id) {
            let k = choose|k: int| 0 <= k < sub.nodes.len() && (#[trigger] sub.nodes[k]).id == id;
            assert(m.nodes[order[k]].id == id);
        }
        if within(m, min, start, id, depth) {
            lemma_within_nodes(m, min, start, id, depth);
            let i = node_place(m.nodes, id);
            assert(order.contains(i));
            let k = choose|k: int| 0 <= k < order.len() && order[k] == i;
            assert(sub.nodes[k].id == id);
        }
    }
    assert forall|k: int| 0 <= k < places.len() implies is_edge_at(
        m,
        sub.edges[k],
        #[trigger] places[k],
    ) && is_inside(m, sub, min, places[k]) by {
        assert(flags[places[k]]);
        assert(is_listed(sub, m.edges[places[k]].src) && is_listed(sub, m.edges[places[k]].dst));
    }
    assert forall|e: int| #[trigger] is_inside(m, sub, min, e) implies places.contains(e) by {
        assert(flags[e]);
    }
    places
}

/// Whether node `i` is where a neighborhood of `name` starts: what the name stands for, and the
/// first note of that name only where it stands for neither a project nor an entity.
pub open spec fn is_start(nodes: Seq<NodeModel>, name: Seq<char>, i: int) -> bool {
    ||| is_meant(nodes, name, i)
    ||| is_first_called(nodes, "note"@, name, i) && forall|j: int|
        0 <= j < nodes.len() && ((#[trigger] nodes[j]).kind == "project"@ || nodes[j].kind
            == "entity"@) ==> canonical(nodes[j].name) != canonical(name)
}

/// The neighborhood of a name is that of the node that the name stands for, and there is none only
/// where no project, entity or note has the name.
pub proof fn law_neighborhood_starts_at_the_name(m: IndexModel, name: Seq<char>, depth: nat, min: int)
    ensures
        match neighborhood_of(m, name, depth, min) {
            Some(sub) => exists|i: int| #[trigger]
                is_start(m.nodes, name, i) && sub == subgraph_of(m, m.nodes[i].id, depth, min),
            None => forall|j: int|
                0 <= j < m.nodes.len() && ((#[trigger] m.nodes[j]).kind == "project"@
                    || m.nodes[j].kind == "entity"@ || m.nodes[j].kind == "note"@) ==> canonical(
                    m.nodes[j].name,
                ) != canonical(name),
        },
{
    lemma_first_named(m.nodes, "project"@, name, 0);
    lemma_first_named(m.nodes, "entity"@, name, 0);
    lemma_first_named(m.nodes, "note"@, name, 0);
    if let Some(i) = start_place(m.nodes, name) {
        assert(is_start(m.nodes, name, i));
    }
}

} // verus!
