//! Private nodes leave no trace in the publish manifest: not their names, not their text, not their
//! edges, not their number.

use vstd::prelude::*;

use crate::order::order_of;
use crate::publish::{
    by_name, edge_flags, edge_item, edge_key, edge_keys, edge_order, entity_flags, lemma_by_name,
    lemma_edge_order, lemma_picked_remove, loop_flags, name_keys, note_flags, note_item, plan_edges,
    plan_entities, plan_loops, plan_notes, plan_of, plan_projects, project_flags, public_entity,
    public_id, public_loop, public_node, public_note, public_path, public_project, refers_to,
    same_manifest,
};
use crate::select::{lemma_ordered, lemma_picked, picked};
use crate::store::{
    has_node, has_note, index_ok, lemma_node_place, lemma_note_place, node_by_id, node_place,
    note_by_id, notes_sorted, EdgeModel, IndexModel, NodeModel, NoteModel,
};

verus! {

/// The note rows that do not belong to node `id`.
pub open spec fn notes_without(notes: Seq<NoteModel>, id: int) -> Seq<NoteModel>
    decreases notes.len(),
{
    if notes.len() == 0 {
        Seq::empty()
    } else if notes.last().node_id == id {
        notes_without(notes.drop_last(), id)
    } else {
        notes_without(notes.drop_last(), id).push(notes.last())
    }
}

/// Whether an edge has node `id` as an endpoint.
pub open spec fn has_end(edge: EdgeModel, id: int) -> bool {
    edge.src == id || edge.dst == id
}

/// The edges that do not have node `id` as an endpoint.
pub open spec fn edges_without(edges: Seq<EdgeModel>, id: int) -> Seq<EdgeModel>
    decreases edges.len(),
{
    if edges.len() == 0 {
        Seq::empty()
    } else if has_end(edges.last(), id) {
        edges_without(edges.drop_last(), id)
    } else {
        edges_without(edges.drop_last(), id).push(edges.last())
    }
}

/// The index without the node at place `i`, its note row and its edges.
pub open spec fn without_node(m: IndexModel, i: int) -> IndexModel {
    let id = m.nodes[i].id;
    IndexModel {
        nodes: m.nodes.remove(i),
        notes: notes_without(m.notes, id),
        edges: edges_without(m.edges, id),
    }
}

/// The place that a node has once the one at place `i` is gone.
pub open spec fn down(i: int, p: int) -> int {
    if p > i {
        p - 1
    } else {
        p
    }
}

/// The place that a node had before the one at place `i` was gone.
pub open spec fn up(i: int, p: int) -> int {
    if p < i {
        p
    } else {
        p + 1
    }
}

proof fn lemma_notes_without(notes: Seq<NoteModel>, id: int)
    requires
        notes_sorted(notes),
    ensures
        notes_sorted(notes_without(notes, id)),
        forall|x: NoteModel| #[trigger]
            notes_without(notes, id).contains(x) <==> notes.contains(x) && x.node_id != id,
    decreases notes.len(),
{
    if notes.len() > 0 {
        let rest = notes.drop_last();
        let last = notes.last();
        lemma_notes_without(rest, id);
        let less = notes_without(rest, id);
        let all = notes_without(notes, id);
        assert forall|x: NoteModel| #[trigger] all.contains(x) <==> notes.contains(x) && x.node_id
            != id by {
            if all.contains(x) {
                let k = choose|k: int| 0 <= k < all.len() && all[k] == x;
                if k < less.len() {
                    assert(less[k] == x);
                    assert(less.contains(x));
                    let j = choose|j: int| 0 <= j < rest.len() && rest[j] == x;
                    assert(notes[j] == x);
                } else {
                    assert(notes[notes.len() - 1] == x);
                }
            }
            if notes.contains(x) && x.node_id != id {
                let j = choose|j: int| 0 <= j < notes.len() && notes[j] == x;
                if j < rest.len() {
                    assert(rest[j] == x);
                    assert(less.contains(x));
                    let k = choose|k: int| 0 <= k < less.len() && less[k] == x;
                    assert(all[k] == x);
                } else {
                    assert(all[less.len() as int] == x);
                }
            }
        }
        assert forall|a: int, b: int| 0 <= a < b < all.len() implies (#[trigger] all[a]).node_id < (
        #[trigger] all[b]).node_id by {
            assert(all[a] == less[a]);
            if b < less.len() {
                assert(all[b] == less[b]);
            } else {
                assert(less.contains(less[a]));
                let j = choose|j: int| 0 <= j < rest.len() && rest[j] == less[a];
                assert(notes[j].node_id < notes[notes.len() - 1].node_id);
            }
        }
    }
}

proof fn lemma_note_stays(notes: Seq<NoteModel>, id: int, other: int)
    requires
        notes_sorted(notes),
        other != id,
    ensures
        has_note(notes_without(notes, id), other) == has_note(notes, other),
        has_note(notes, other) ==> note_by_id(notes_without(notes, id), other) == note_by_id(
            notes,
            other,
        ),
{
    lemma_notes_without(notes, id);
    let less = notes_without(notes, id);
    if has_note(notes, other) {
        let k = choose|k: int| 0 <= k < notes.len() && (#[trigger] notes[k]).node_id == other;
        assert(notes.contains(notes[k]));
        assert(less.contains(notes[k]));
        let j = choose|j: int| 0 <= j < less.len() && less[j] == notes[k];
        assert(less[j].node_id == other);
        lemma_note_place(notes, k);
        lemma_note_place(less, j);
    }
    if has_note(less, other) {
        let j = choose|j: int| 0 <= j < less.len() && (#[trigger] less[j]).node_id == other;
        assert(less.contains(less[j]));
        let k = choose|k: int| 0 <= k < notes.len() && notes[k] == less[j];
        assert(notes[k].node_id == other);
    }
}

proof fn lemma_edges_without(edges: Seq<EdgeModel>, id: int)
    ensures
        edges_without(edges, id).len() <= edges.len(),
        forall|x: EdgeModel| #[trigger]
            edges_without(edges, id).contains(x) <==> edges.contains(x) && !has_end(x, id),
    decreases edges.len(),
{
    if edges.len() > 0 {
        let rest = edges.drop_last();
        lemma_edges_without(rest, id);
        let less = edges_without(rest, id);
        let all = edges_without(edges, id);
        assert forall|x: EdgeModel| #[trigger] all.contains(x) <==> edges.contains(x) && !has_end(
            x,
            id,
        ) by {
            if all.contains(x) {
                let k = choose|k: int| 0 <= k < all.len() && all[k] == x;
                if k < less.len() {
                    assert(less[k] == x);
                    assert(less.contains(x));
                    let j = choose|j: int| 0 <= j < rest.len() && rest[j] == x;
                    assert(edges[j] == x);
                } else {
                    assert(edges[edges.len() - 1] == x);
                }
            }
            if edges.contains(x) && !has_end(x, id) {
                let j = choose|j: int| 0 <= j < edges.len() && edges[j] == x;
                if j < rest.len() {
                    assert(rest[j] == x);
                    assert(less.contains(x));
                    let k = choose|k: int| 0 <= k < less.len() && less[k] == x;
                    assert(all[k] == x);
                } else {
                    assert(all[less.len() as int] == x);
                }
            }
        }
    }
}

/// Flagged edges that do not have the node as an endpoint are the same edges in the same order once
/// the node is gone.
proof fn lemma_picks_stay(
    edges: Seq<EdgeModel>,
    id: int,
    flags: Seq<bool>,
    less: Seq<bool>,
    shown: spec_fn(EdgeModel) -> bool,
)
    requires
        flags.len() == edges.len(),
        less.len() == edges_without(edges, id).len(),
        forall|k: int| 0 <= k < flags.len() ==> #[trigger] flags[k] == shown(edges[k]),
        forall|k: int|
            0 <= k < less.len() ==> #[trigger] less[k] == shown(edges_without(edges, id)[k]),
        forall|k: int| 0 <= k < flags.len() && #[trigger] flags[k] ==> !has_end(edges[k], id),
    ensures
        picked(less).len() == picked(flags).len(),
        forall|k: int|
            0 <= k < picked(flags).len() ==> edges_without(edges, id)[#[trigger] picked(less)[k]]
                == edges[picked(flags)[k]],
    decreases edges.len(),
{
    if edges.len() > 0 {
        let rest = edges.drop_last();
        let few = edges_without(rest, id);
        let all = edges_without(edges, id);
        let last = edges.last();
        let rest_flags = flags.drop_last();
        assert(flags[flags.len() - 1] == shown(last));
        let rest_less = if has_end(last, id) {
            less
        } else {
            less.drop_last()
        };
        assert forall|k: int| 0 <= k < rest_flags.len() implies #[trigger] rest_flags[k] == shown(
            rest[k],
        ) && (rest_flags[k] ==> !has_end(rest[k], id)) by {
            assert(flags[k] == shown(edges[k]));
        }
        assert forall|k: int| 0 <= k < rest_less.len() implies #[trigger] rest_less[k] == shown(
            few[k],
        ) by {
            assert(less[k] == shown(all[k]));
        }
        lemma_picks_stay(rest, id, rest_flags, rest_less, shown);
        lemma_picked(rest_flags);
        lemma_picked(rest_less);
        if !has_end(last, id) {
            assert(less[less.len() - 1] == shown(all[all.len() - 1]));
            assert(all[all.len() - 1] == last);
        }
        assert forall|k: int| 0 <= k < picked(flags).len() implies all[#[trigger] picked(less)[k]]
            == edges[picked(flags)[k]] by {
            if k < picked(rest_flags).len() {
                assert(picked(flags)[k] == picked(rest_flags)[k]);
                assert(picked(less)[k] == picked(rest_less)[k]);
                assert(few[picked(rest_less)[k]] == rest[picked(rest_flags)[k]]);
            }
        }
    }
}

/// Where the other nodes are once the node at place `i` is gone.
proof fn lemma_nodes_stay(m: IndexModel, i: int)
    requires
        index_ok(m),
        0 <= i < m.nodes.len(),
    ensures
        index_ok(without_node(m, i)),
        forall|j: int|
            0 <= j < without_node(m, i).nodes.len() ==> {
                &&& #[trigger] without_node(m, i).nodes[j] == m.nodes[up(i, j)]
                &&& m.nodes[up(i, j)].id != m.nodes[i].id
            },
        forall|id: int|
            id != m.nodes[i].id && #[trigger] has_node(m.nodes, id) ==> {
                &&& has_node(without_node(m, i).nodes, id)
                &&& 0 <= node_place(m.nodes, id) < m.nodes.len()
                &&& node_place(m.nodes, id) != i
                &&& node_place(without_node(m, i).nodes, id) == down(i, node_place(m.nodes, id))
                &&& node_by_id(without_node(m, i).nodes, id) == node_by_id(m.nodes, id)
            },
{
    let n = without_node(m, i);
    let gone = m.nodes[i].id;
    assert forall|j: int| 0 <= j < n.nodes.len() implies {
        &&& #[trigger] n.nodes[j] == m.nodes[up(i, j)]
        &&& m.nodes[up(i, j)].id != gone
    } by {
        if j < i {
            assert(m.nodes[j].id < m.nodes[i].id);
        } else {
            assert(m.nodes[i].id < m.nodes[j + 1].id);
        }
    }
    assert forall|a: int, b: int| 0 <= a < b < n.nodes.len() implies (#[trigger] n.nodes[a]).id < (
    #[trigger] n.nodes[b]).id by {
        assert(m.nodes[up(i, a)].id < m.nodes[up(i, b)].id);
    }
    assert forall|id: int| id != gone && #[trigger] has_node(m.nodes, id) implies {
        &&& has_node(n.nodes, id)
        &&& 0 <= node_place(m.nodes, id) < m.nodes.len()
        &&& node_place(m.nodes, id) != i
        &&& node_place(n.nodes, id) == down(i, node_place(m.nodes, id))
        &&& node_by_id(n.nodes, id) == node_by_id(m.nodes, id)
    } by {
        let p = node_place(m.nodes, id);
        assert(m.nodes[p].id == id);
        let q = down(i, p);
        assert(up(i, q) == p);
        assert(n.nodes[q] == m.nodes[p]);
        lemma_node_place(n.nodes, q);
    }
    lemma_notes_without(m.notes, gone);
    lemma_edges_without(m.edges, gone);
    assert forall|k: int| 0 <= k < n.notes.len() implies has_node(
        n.nodes,
        (#[trigger] n.notes[k]).node_id,
    ) by {
        assert(n.notes.contains(n.notes[k]));
        let x = choose|x: int| 0 <= x < m.notes.len() && m.notes[x] == n.notes[k];
        assert(has_node(m.nodes, m.notes[x].node_id));
    }
    assert forall|k: int| 0 <= k < n.edges.len() implies has_node(
        n.nodes,
        (#[trigger] n.edges[k]).src,
    ) && has_node(n.nodes, n.edges[k].dst) by {
        assert(n.edges.contains(n.edges[k]));
        let x = choose|x: int| 0 <= x < m.edges.len() && m.edges[x] == n.edges[k];
        assert(has_node(m.nodes, m.edges[x].src) && has_node(m.nodes, m.edges[x].dst));
    }
}

/// The other nodes are public as before once a private node is gone.
proof fn lemma_public_stays(m: IndexModel, repos: Seq<Seq<char>>, i: int)
    requires
        index_ok(m),
        0 <= i < m.nodes.len(),
        !public_node(m, repos, i),
    ensures
        forall|j: int|
            0 <= j < without_node(m, i).nodes.len() ==> {
                &&& #[trigger] public_note(without_node(m, i), j) == public_note(m, up(i, j))
                &&& public_note(m, up(i, j)) ==> note_item(without_node(m, i), j) == note_item(
                    m,
                    up(i, j),
                )
            },
        forall|j: int|
            0 <= j < without_node(m, i).nodes.len() ==> #[trigger] public_project(
                without_node(m, i),
                repos,
                j,
            ) == public_project(m, repos, up(i, j)),
        forall|j: int|
            0 <= j < without_node(m, i).nodes.len() ==> #[trigger] public_loop(
                without_node(m, i),
                j,
            ) == public_loop(m, up(i, j)),
        forall|j: int|
            0 <= j < without_node(m, i).nodes.len() ==> #[trigger] public_entity(
                without_node(m, i),
                repos,
                j,
            ) == public_entity(m, repos, up(i, j)),
{
    let n = without_node(m, i);
    let gone = m.nodes[i].id;
    lemma_nodes_stay(m, i);
    lemma_node_place(m.nodes, i);
    assert forall|j: int| 0 <= j < n.nodes.len() implies {
        &&& #[trigger] public_note(n, j) == public_note(m, up(i, j))
        &&& public_note(m, up(i, j)) ==> note_item(n, j) == note_item(m, up(i, j))
    } by {
        assert(n.nodes[j] == m.nodes[up(i, j)]);
        lemma_note_stays(m.notes, gone, n.nodes[j].id);
    }
    assert forall|j: int| 0 <= j < n.nodes.len() implies #[trigger] public_project(n, repos, j)
        == public_project(m, repos, up(i, j)) by {
        assert(n.nodes[j] == m.nodes[up(i, j)]);
    }
    assert forall|path: Seq<char>| #[trigger] public_path(n, path) == public_path(m, path) by {
        if public_path(n, path) {
            let j = choose|j: int|
                0 <= j < n.nodes.len() && #[trigger] public_note(n, j) && n.nodes[j].name == path;
            assert(n.nodes[j] == m.nodes[up(i, j)]);
            assert(public_note(m, up(i, j)));
        }
        if public_path(m, path) {
            let p = choose|p: int|
                0 <= p < m.nodes.len() && #[trigger] public_note(m, p) && m.nodes[p].name == path;
            assert(p != i);
            let j = down(i, p);
            assert(up(i, j) == p);
            assert(n.nodes[j] == m.nodes[p]);
            assert(public_note(n, j));
        }
    }
    assert forall|j: int| 0 <= j < n.nodes.len() implies #[trigger] public_loop(n, j)
        == public_loop(m, up(i, j)) by {
        assert(n.nodes[j] == m.nodes[up(i, j)]);
        if n.nodes[j].path is Some {
            assert(public_path(n, n.nodes[j].path->0) == public_path(m, n.nodes[j].path->0));
        }
    }
    lemma_edges_without(m.edges, gone);
    assert forall|j: int| 0 <= j < n.nodes.len() implies #[trigger] public_entity(n, repos, j)
        == public_entity(m, repos, up(i, j)) by {
        let p = up(i, j);
        assert(n.nodes[j] == m.nodes[p]);
        if public_entity(n, repos, j) {
            let x = choose|x: int|
                0 <= x < n.edges.len() && #[trigger] refers_to(n, repos, n.edges[x], j);
            let edge = n.edges[x];
            assert(n.edges.contains(edge));
            let y = choose|y: int| 0 <= y < m.edges.len() && m.edges[y] == edge;
            assert(has_node(m.nodes, m.edges[y].src));
            let s = node_place(m.nodes, edge.src);
            assert(up(i, down(i, s)) == s);
            assert(public_note(n, down(i, s)) == public_note(m, s));
            assert(public_project(n, repos, down(i, s)) == public_project(m, repos, s));
            assert(refers_to(m, repos, m.edges[y], p));
        }
        if public_entity(m, repos, p) {
            let y = choose|y: int|
                0 <= y < m.edges.len() && #[trigger] refers_to(m, repos, m.edges[y], p);
            let edge = m.edges[y];
            assert(has_node(m.nodes, m.edges[y].src));
            assert(edge.src != gone);
            assert(m.edges.contains(edge));
            assert(n.edges.contains(edge));
            let x = choose|x: int| 0 <= x < n.edges.len() && n.edges[x] == edge;
            let s = node_place(m.nodes, edge.src);
            assert(up(i, down(i, s)) == s);
            assert(public_note(n, down(i, s)) == public_note(m, s));
            assert(public_project(n, repos, down(i, s)) == public_project(m, repos, s));
            assert(refers_to(n, repos, n.edges[x], j));
        }
    }
}

/// Flagged nodes are listed in the same order once a node that is not flagged is gone.
proof fn lemma_by_name_stays(nodes: Seq<NodeModel>, flags: Seq<bool>, less: Seq<bool>, i: int)
    requires
        flags.len() == nodes.len(),
        less.len() == nodes.len() - 1,
        0 <= i < nodes.len(),
        !flags[i],
        forall|j: int| 0 <= j < less.len() ==> #[trigger] less[j] == flags[up(i, j)],
    ensures
        by_name(nodes.remove(i), less).len() == by_name(nodes, flags).len(),
        forall|k: int|
            0 <= k < by_name(nodes, flags).len() ==> {
                &&& 0 <= by_name(nodes, flags)[k] < nodes.len()
                &&& flags[by_name(nodes, flags)[k]]
                &&& by_name(nodes, flags)[k] != i
                &&& #[trigger] by_name(nodes.remove(i), less)[k] == down(i, by_name(nodes, flags)[k])
            },
{
    let few = nodes.remove(i);
    assert(less =~= flags.remove(i)) by {
        assert forall|j: int| 0 <= j < less.len() implies less[j] == #[trigger] flags.remove(
            i,
        )[j] by {
            assert(less[j] == flags[up(i, j)]);
        }
    }
    lemma_picked_remove(flags, i);
    lemma_picked(flags);
    let pm = picked(flags);
    let pn = picked(less);
    assert forall|k: int| 0 <= k < pm.len() implies #[trigger] pn[k] == down(i, pm[k]) && pm[k] != i
        && few[pn[k]] == nodes[pm[k]] by {
        assert(flags[pm[k]]);
    }
    assert(name_keys(few, pn) =~= name_keys(nodes, pm)) by {
        assert forall|k: int| 0 <= k < pm.len() implies #[trigger] name_keys(few, pn)[k]
            == name_keys(nodes, pm)[k] by {
            assert(pn[k] == down(i, pm[k]));
        }
    }
    lemma_by_name(nodes, flags);
    lemma_by_name(few, less);
    let keys = name_keys(nodes, pm);
    lemma_ordered(pm, keys);
    lemma_ordered(pn, keys);
    let order = order_of(keys);
    assert forall|k: int| 0 <= k < pm.len() implies {
        &&& 0 <= by_name(nodes, flags)[k] < nodes.len()
        &&& flags[by_name(nodes, flags)[k]]
        &&& by_name(nodes, flags)[k] != i
        &&& #[trigger] by_name(few, less)[k] == down(i, by_name(nodes, flags)[k])
    } by {
        assert(by_name(nodes, flags)[k] == pm[order[k]]);
        assert(by_name(few, less)[k] == pn[order[k]]);
        assert(pn[order[k]] == down(i, pm[order[k]]));
    }
}

/// The listed notes, projects, loops and entities stay once a private node is gone.
proof fn lemma_lists_stay(m: IndexModel, repos: Seq<Seq<char>>, i: int)
    requires
        index_ok(m),
        0 <= i < m.nodes.len(),
        !public_node(m, repos, i),
    ensures
        plan_notes(without_node(m, i)) == plan_notes(m),
        plan_projects(without_node(m, i), repos) == plan_projects(m, repos),
        plan_loops(without_node(m, i)) == plan_loops(m),
        plan_entities(without_node(m, i), repos) == plan_entities(m, repos),
{
    let n = without_node(m, i);
    lemma_nodes_stay(m, i);
    lemma_public_stays(m, repos, i);
    assert forall|j: int| 0 <= j < n.nodes.len() implies #[trigger] note_flags(n)[j] == note_flags(
        m,
    )[up(i, j)] by {
        assert(public_note(n, j) == public_note(m, up(i, j)));
    }
    lemma_by_name_stays(m.nodes, note_flags(m), note_flags(n), i);
    assert(plan_notes(n) =~= plan_notes(m)) by {
        assert forall|k: int| 0 <= k < plan_notes(m).len() implies #[trigger] plan_notes(n)[k]
            == plan_notes(m)[k] by {
            let p = by_name(m.nodes, note_flags(m))[k];
            let q = by_name(n.nodes, note_flags(n))[k];
            assert(q == down(i, p) && up(i, q) == p);
            assert(note_flags(m)[p] && public_note(m, p));
            assert(public_note(n, q) == public_note(m, up(i, q)));
        }
    }
    assert forall|j: int| 0 <= j < n.nodes.len() implies #[trigger] project_flags(n, repos)[j]
        == project_flags(m, repos)[up(i, j)] by {
        assert(public_project(n, repos, j) == public_project(m, repos, up(i, j)));
    }
    lemma_by_name_stays(m.nodes, project_flags(m, repos), project_flags(n, repos), i);
    assert(plan_projects(n, repos) =~= plan_projects(m, repos)) by {
        assert forall|k: int| 0 <= k < plan_projects(m, repos).len() implies #[trigger] plan_projects(
            n,
            repos,
        )[k] == plan_projects(m, repos)[k] by {
            let p = by_name(m.nodes, project_flags(m, repos))[k];
            let q = by_name(n.nodes, project_flags(n, repos))[k];
            assert(q == down(i, p) && up(i, q) == p);
            assert(n.nodes[q] == m.nodes[p]);
        }
    }
    assert forall|j: int| 0 <= j < n.nodes.len() implies #[trigger] loop_flags(n)[j] == loop_flags(
        m,
    )[up(i, j)] by {
        assert(public_loop(n, j) == public_loop(m, up(i, j)));
    }
    lemma_by_name_stays(m.nodes, loop_flags(m), loop_flags(n), i);
    assert(plan_loops(n) =~= plan_loops(m)) by {
        assert forall|k: int| 0 <= k < plan_loops(m).len() implies #[trigger] plan_loops(n)[k]
            == plan_loops(m)[k] by {
            let p = by_name(m.nodes, loop_flags(m))[k];
            let q = by_name(n.nodes, loop_flags(n))[k];
            assert(q == down(i, p) && up(i, q) == p);
            assert(n.nodes[q] == m.nodes[p]);
        }
    }
    assert forall|j: int| 0 <= j < n.nodes.len() implies #[trigger] entity_flags(n, repos)[j]
        == entity_flags(m, repos)[up(i, j)] by {
        assert(public_entity(n, repos, j) == public_entity(m, repos, up(i, j)));
    }
    lemma_by_name_stays(m.nodes, entity_flags(m, repos), entity_flags(n, repos), i);
    assert(plan_entities(n, repos) =~= plan_entities(m, repos)) by {
        assert forall|k: int| 0 <= k < plan_entities(m, repos).len() implies #[trigger] plan_entities(
            n,
            repos,
        )[k] == plan_entities(m, repos)[k] by {
            let p = by_name(m.nodes, entity_flags(m, repos))[k];
            let q = by_name(n.nodes, entity_flags(n, repos))[k];
            assert(q == down(i, p) && up(i, q) == p);
            assert(n.nodes[q] == m.nodes[p]);
        }
    }
}

/// The listed edges stay once a private node is gone.
proof fn lemma_edge_list_stays(m: IndexModel, repos: Seq<Seq<char>>, i: int)
    requires
        index_ok(m),
        0 <= i < m.nodes.len(),
        !public_node(m, repos, i),
    ensures
        plan_edges(without_node(m, i), repos) == plan_edges(m, repos),
{
    let n = without_node(m, i);
    let gone = m.nodes[i].id;
    lemma_nodes_stay(m, i);
    lemma_public_stays(m, repos, i);
    lemma_node_place(m.nodes, i);
    lemma_edges_without(m.edges, gone);
    let shown = |e: EdgeModel| public_id(m, repos, e.src) && public_id(m, repos, e.dst);
    let fm = edge_flags(m, repos);
    let gn = edge_flags(n, repos);
    assert forall|id: int| id != gone && #[trigger] has_node(m.nodes, id) implies public_id(
        n,
        repos,
        id,
    ) == public_id(m, repos, id) by {
        let p = node_place(m.nodes, id);
        let q = down(i, p);
        assert(up(i, q) == p);
        assert(public_note(n, q) == public_note(m, p));
        assert(public_project(n, repos, q) == public_project(m, repos, p));
        assert(public_loop(n, q) == public_loop(m, p));
        assert(public_entity(n, repos, q) == public_entity(m, repos, p));
    }
    assert forall|k: int| 0 <= k < gn.len() implies #[trigger] gn[k] == shown(n.edges[k]) by {
        assert(n.edges.contains(n.edges[k]));
        let x = choose|x: int| 0 <= x < m.edges.len() && m.edges[x] == n.edges[k];
        assert(has_node(m.nodes, m.edges[x].src) && has_node(m.nodes, m.edges[x].dst));
        assert(!has_end(n.edges[k], gone));
    }
    assert forall|k: int| 0 <= k < fm.len() && #[trigger] fm[k] implies !has_end(m.edges[k], gone) by {
        assert(!public_id(m, repos, gone));
    }
    lemma_picks_stay(m.edges, gone, fm, gn, shown);
    let pm = picked(fm);
    let pn = picked(gn);
    lemma_picked(fm);
    assert forall|k: int| 0 <= k < pm.len() implies #[trigger] edge_key(n, pn[k]) == edge_key(
        m,
        pm[k],
    ) && edge_item(n, pn[k]) == edge_item(m, pm[k]) by {
        assert(n.edges[pn[k]] == m.edges[pm[k]]);
        assert(fm[pm[k]]);
        assert(has_node(m.nodes, m.edges[pm[k]].src) && has_node(m.nodes, m.edges[pm[k]].dst));
    }
    assert(edge_keys(n, pn) =~= edge_keys(m, pm)) by {
        assert forall|k: int| 0 <= k < pm.len() implies #[trigger] edge_keys(n, pn)[k] == edge_keys(
            m,
            pm,
        )[k] by {
            assert(edge_key(n, pn[k]) == edge_key(m, pm[k]));
        }
    }
    lemma_edge_order(m, repos);
    let keys = edge_keys(m, pm);
    lemma_ordered(pm, keys);
    lemma_ordered(pn, keys);
    let order = order_of(keys);
    assert(plan_edges(n, repos) =~= plan_edges(m, repos)) by {
        assert forall|k: int| 0 <= k < pm.len() implies #[trigger] plan_edges(n, repos)[k]
            == plan_edges(m, repos)[k] by {
            assert(edge_order(m, repos)[k] == pm[order[k]]);
            assert(edge_order(n, repos)[k] == pn[order[k]]);
            assert(edge_key(n, pn[order[k]]) == edge_key(m, pm[order[k]]));
        }
    }
}

/// Private nodes leave no trace: the manifest is the same with and without a private node, its
/// note row and its edges. The other nodes are public or private as before, so that any number of
/// private nodes can be taken away, or added, one after the other.
pub proof fn law_private_node_leaves_no_trace(m: IndexModel, repos: Seq<Seq<char>>, i: int)
    requires
        index_ok(m),
        0 <= i < m.nodes.len(),
        !public_node(m, repos, i),
    ensures
        same_manifest(plan_of(m, repos), plan_of(without_node(m, i), repos)),
        index_ok(without_node(m, i)),
        forall|j: int|
            0 <= j < m.nodes.len() && j != i ==> public_node(without_node(m, i), repos, down(i, j))
                == #[trigger] public_node(m, repos, j),
{
    lemma_nodes_stay(m, i);
    lemma_lists_stay(m, repos, i);
    lemma_edge_list_stays(m, repos, i);
    lemma_public_stays(m, repos, i);
    let n = without_node(m, i);
    assert forall|j: int| 0 <= j < m.nodes.len() && j != i implies public_node(
        n,
        repos,
        down(i, j),
    ) == #[trigger] public_node(m, repos, j) by {
        let q = down(i, j);
        assert(up(i, q) == j);
        assert(public_note(n, q) == public_note(m, j));
        assert(public_project(n, repos, q) == public_project(m, repos, j));
        assert(public_loop(n, q) == public_loop(m, j));
        assert(public_entity(n, repos, q) == public_entity(m, repos, j));
    }
}

/// The index without the given nodes, their note rows and their edges.
pub open spec fn without_nodes(m: IndexModel, ids: Seq<int>) -> IndexModel
    decreases ids.len(),
{
    if ids.len() == 0 {
        m
    } else {
        let less = without_nodes(m, ids.drop_last());
        without_node(less, node_place(less.nodes, ids.last()))
    }
}

/// Any number of private nodes leave no trace: the manifest is the same with and without them,
/// their note rows, and all edges that have one of them as an endpoint.
pub proof fn law_private_nodes_leave_no_trace(m: IndexModel, repos: Seq<Seq<char>>, ids: Seq<int>)
    requires
        index_ok(m),
        ids.no_duplicates(),
        forall|k: int|
            0 <= k < ids.len() ==> has_node(m.nodes, #[trigger] ids[k]) && !public_id(
                m,
                repos,
                ids[k],
            ),
    ensures
        same_manifest(plan_of(m, repos), plan_of(without_nodes(m, ids), repos)),
        index_ok(without_nodes(m, ids)),
        forall|id: int|
            has_node(m.nodes, id) && !ids.contains(id) ==> #[trigger] has_node(
                without_nodes(m, ids).nodes,
                id,
            ) && public_id(without_nodes(m, ids), repos, id) == public_id(m, repos, id),
    decreases ids.len(),
{
    if ids.len() > 0 {
        let rest = ids.drop_last();
        let last = ids.last();
        assert forall|k: int| 0 <= k < rest.len() implies has_node(m.nodes, #[trigger] rest[k])
            && !public_id(m, repos, rest[k]) by {
            assert(rest[k] == ids[k]);
        }
        assert(ids[ids.len() - 1] == last);
        law_private_nodes_leave_no_trace(m, repos, rest);
        let less = without_nodes(m, rest);
        assert(!rest.contains(last));
        let i = node_place(less.nodes, last);
        assert(has_node(less.nodes, last));
        assert(less.nodes[i].id == last);
        law_private_node_leaves_no_trace(less, repos, i);
        lemma_nodes_stay(less, i);
        let n = without_nodes(m, ids);
        assert forall|id: int| has_node(m.nodes, id) && !ids.contains(id) implies #[trigger] has_node(
            n.nodes,
            id,
        ) && public_id(n, repos, id) == public_id(m, repos, id) by {
            assert(!rest.contains(id)) by {
                if rest.contains(id) {
                    let k = choose|k: int| 0 <= k < rest.len() && rest[k] == id;
                    assert(ids[k] == id);
                }
            }
            assert(id != last);
            assert(has_node(less.nodes, id));
            let p = node_place(less.nodes, id);
            assert(public_node(n, repos, down(i, p)) == public_node(less, repos, p));
        }
    }
}

} // verus!
