//! What the answers about a name and the list of open loops say, row by row of the index.

use vstd::prelude::*;

use crate::answers::{
    asked_for, lemma_by_date_order, lemma_dangling_order, lemma_entries, lemma_refs,
};
use crate::dates::parsed_day;
use crate::extract::canonical;
use crate::graph::first_named;
use crate::json::{field, text_field};
use crate::order::{
    before, key_le, keys_ok, lemma_text_le_total, lemma_text_le_trans, order_of, text_le, PartModel,
};
use crate::query::{
    about_node, about_of, arc, by_date, co_flags, co_keys, co_order, container_flags,
    dangling_flags, dangling_item, dangling_of, dangling_order, facts_upto, first_seen_upto,
    holds_loop, holds_text, is_dangling, least_path_upto, limited, mentioning_flags, mentions,
    note_path_of, shared_count, shared_flags, sighting_flags, subject_place, why_of, AboutModel,
    CoMentionModel, DanglingModel, FactModel, NoteRefModel, QueryError,
};
use crate::select::{lemma_ordered, lemma_picked, lemma_picked_count, picked};
use crate::store::{
    has_node, index_ok, lemma_node_place, node_place, IndexModel, NodeModel, NoteModel,
};

verus! {

/// Whether node `i` is the first of a kind whose name is `name` but for case and edge punctuation.
pub open spec fn is_first_called(
    nodes: Seq<NodeModel>,
    kind: Seq<char>,
    name: Seq<char>,
    i: int,
) -> bool {
    &&& 0 <= i < nodes.len()
    &&& nodes[i].kind == kind
    &&& canonical(nodes[i].name) == canonical(name)
    &&& forall|j: int|
        0 <= j < i && (#[trigger] nodes[j]).kind == kind ==> canonical(nodes[j].name) != canonical(
            name,
        )
}

/// Whether node `i` is what `name` stands for: the first project of that name, and the first entity
/// of that name only where there is no such project.
pub open spec fn is_meant(nodes: Seq<NodeModel>, name: Seq<char>, i: int) -> bool {
    ||| is_first_called(nodes, "project"@, name, i)
    ||| is_first_called(nodes, "entity"@, name, i) && forall|j: int|
        0 <= j < nodes.len() && (#[trigger] nodes[j]).kind == "project"@ ==> canonical(
            nodes[j].name,
        ) != canonical(name)
}

pub proof fn lemma_first_named(nodes: Seq<NodeModel>, kind: Seq<char>, name: Seq<char>, from: int)
    requires
        0 <= from,
        forall|j: int|
            0 <= j < from && j < nodes.len() && (#[trigger] nodes[j]).kind == kind ==> canonical(
                nodes[j].name,
            ) != canonical(name),
    ensures
        match first_named(nodes, kind, canonical(name), from) {
            Some(i) => is_first_called(nodes, kind, name, i),
            None => forall|j: int|
                0 <= j < nodes.len() && (#[trigger] nodes[j]).kind == kind ==> canonical(
                    nodes[j].name,
                ) != canonical(name),
        },
    decreases nodes.len() - from,
{
    if from < nodes.len() {
        if !(nodes[from].kind == kind && canonical(nodes[from].name) == canonical(name)) {
            lemma_first_named(nodes, kind, name, from + 1);
        }
    }
}

/// A name stands for a project or an entity of that name, whatever its case and edge punctuation,
/// and for a project rather than an entity. It stands for nothing only where there is neither.
pub proof fn law_names_stand_for_projects_first(nodes: Seq<NodeModel>, name: Seq<char>)
    ensures
        match subject_place(nodes, name) {
            Some(i) => is_meant(nodes, name, i),
            None => forall|j: int|
                0 <= j < nodes.len() && ((#[trigger] nodes[j]).kind == "project"@ || nodes[j].kind
                    == "entity"@) ==> canonical(nodes[j].name) != canonical(name),
        },
{
    lemma_first_named(nodes, "project"@, name, 0);
    lemma_first_named(nodes, "entity"@, name, 0);
}

/// Whether an edge leads from node `src` to node `dst`.
pub open spec fn joined_by_edge(m: IndexModel, src: int, dst: int) -> bool {
    exists|e: int|
        0 <= e < m.edges.len() && (#[trigger] m.edges[e]).src == src && m.edges[e].dst == dst
}

/// The note nodes with an edge to each of two nodes.
pub open spec fn notes_on_both(m: IndexModel, x: int, y: int) -> Set<int> {
    Set::new(
        |i: int|
            0 <= i < m.nodes.len() && m.nodes[i].kind == "note"@ && joined_by_edge(
                m,
                m.nodes[i].id,
                x,
            ) && joined_by_edge(m, m.nodes[i].id, y),
    )
}

/// Whether node `y` is another node than `x` that two notes or more link to together with `x`.
pub open spec fn keeps_company(m: IndexModel, x: int, y: int) -> bool {
    &&& 0 <= y < m.nodes.len()
    &&& m.nodes[y].id != x
    &&& notes_on_both(m, x, m.nodes[y].id).len() >= 2
}

/// Whether an entry is that of node `y`, with the number of notes that link to it and to `x`.
pub open spec fn is_company(m: IndexModel, x: int, item: CoMentionModel, y: int) -> bool {
    &&& keeps_company(m, x, y)
    &&& item.name == m.nodes[y].name
    &&& item.kind == m.nodes[y].kind
    &&& item.shared_notes == notes_on_both(m, x, m.nodes[y].id).len()
}

/// Whether an entry is that of some node.
pub open spec fn from_company(m: IndexModel, x: int, item: CoMentionModel) -> bool {
    exists|y: int| is_company(m, x, item, y)
}

proof fn lemma_shared(m: IndexModel, a: int, b: int)
    ensures
        notes_on_both(m, a, b).finite(),
        shared_count(m, a, b) == notes_on_both(m, a, b).len(),
{
    let flags = shared_flags(m, a, b);
    assert forall|i: int| #[trigger] notes_on_both(m, a, b).contains(i) <==> 0 <= i < flags.len()
        && flags[i] by {
        if 0 <= i < m.nodes.len() {
            assert(joined_by_edge(m, m.nodes[i].id, a) == arc(m, m.nodes[i].id, a));
            assert(joined_by_edge(m, m.nodes[i].id, b) == arc(m, m.nodes[i].id, b));
        }
    }
    lemma_picked_count(flags, notes_on_both(m, a, b));
}

proof fn lemma_co_order(m: IndexModel, id: int)
    ensures
        forall|k: int|
            0 <= k < co_order(m, id).len() ==> keeps_company(m, id, #[trigger] co_order(m, id)[k]),
        forall|y: int| #[trigger] keeps_company(m, id, y) ==> co_order(m, id).contains(y),
        forall|k: int, l: int|
            0 <= k < l < co_order(m, id).len() ==> notes_on_both(
                m,
                id,
                m.nodes[#[trigger] co_order(m, id)[k]].id,
            ).len() >= notes_on_both(m, id, m.nodes[#[trigger] co_order(m, id)[l]].id).len(),
        co_order(m, id).len() == Set::new(|y: int| keeps_company(m, id, y)).len(),
{
    let flags = co_flags(m, id);
    let picks = picked(flags);
    let keys = co_keys(m, id, picks);
    let order = order_of(keys);
    let list = co_order(m, id);
    lemma_picked(flags);
    assert(keys_ok(keys));
    lemma_ordered(picks, keys);
    assert forall|y: int| 0 <= y < m.nodes.len() implies #[trigger] keeps_company(m, id, y)
        == flags[y] by {
        lemma_shared(m, id, m.nodes[y].id);
    }
    assert forall|k: int| 0 <= k < list.len() implies keeps_company(m, id, #[trigger] list[k]) by {
        assert(list[k] == picks[order[k]]);
        assert(flags[picks[order[k]]]);
    }
    assert forall|y: int| #[trigger] keeps_company(m, id, y) implies list.contains(y) by {
        assert(flags[y]);
        assert(picks.contains(y));
    }
    assert forall|k: int, l: int| 0 <= k < l < list.len() implies notes_on_both(
        m,
        id,
        m.nodes[#[trigger] list[k]].id,
    ).len() >= notes_on_both(m, id, m.nodes[#[trigger] list[l]].id).len() by {
        assert(list[k] == picks[order[k]] && list[l] == picks[order[l]]);
        assert(before(keys, order[k], order[l]));
        assert(key_le(keys[order[k]], keys[order[l]]));
        lemma_shared(m, id, m.nodes[list[k]].id);
        lemma_shared(m, id, m.nodes[list[l]].id);
        assert(keys[order[k]][0] == PartModel::Num(-shared_count(m, id, m.nodes[list[k]].id)));
        assert(keys[order[l]][0] == PartModel::Num(-shared_count(m, id, m.nodes[list[l]].id)));
    }
    let places = Set::new(|y: int| keeps_company(m, id, y));
    assert forall|y: int| #[trigger] places.contains(y) <==> 0 <= y < flags.len() && flags[y] by {}
    lemma_picked_count(flags, places);
}

/// What is co-mentioned with something: nodes that two notes or more link to together with it, each
/// with the number of those notes, the most first. All of them are listed where there are at most
/// twenty, and twenty of them otherwise.
pub proof fn law_co_mentions_share_notes(m: IndexModel, name: Seq<char>, x: int)
    requires
        0 <= x < m.nodes.len(),
    ensures
        about_node(m, name, x) matches Ok(about) ==> {
            let list = about.co_mentioned;
            let all = Set::new(|y: int| keeps_company(m, m.nodes[x].id, y));
            &&& list.len() == if all.len() <= 20 {
                all.len()
            } else {
                20
            }
            &&& forall|k: int|
                0 <= k < list.len() ==> from_company(m, m.nodes[x].id, #[trigger] list[k])
            &&& all.len() <= 20 ==> forall|y: int| #[trigger]
                keeps_company(m, m.nodes[x].id, y) ==> exists|k: int|
                    0 <= k < list.len() && is_company(m, m.nodes[x].id, #[trigger] list[k], y)
            &&& forall|k: int, l: int|
                0 <= k < l < list.len() ==> (#[trigger] list[k]).shared_notes >= (
                #[trigger] list[l]).shared_notes
        },
{
    if let Ok(about) = about_node(m, name, x) {
        let id = m.nodes[x].id;
        let list = about.co_mentioned;
        let order = co_order(m, id);
        let short = limited(order, 20);
        lemma_co_order(m, id);
        assert forall|k: int| 0 <= k < list.len() implies from_company(
            m,
            id,
            #[trigger] list[k],
        ) by {
            assert(short[k] == order[k]);
            lemma_shared(m, id, m.nodes[order[k]].id);
            assert(keeps_company(m, id, order[k]));
            assert(is_company(m, id, list[k], order[k]));
        }
        assert forall|k: int, l: int| 0 <= k < l < list.len() implies (
        #[trigger] list[k]).shared_notes >= (#[trigger] list[l]).shared_notes by {
            assert(short[k] == order[k] && short[l] == order[l]);
            lemma_shared(m, id, m.nodes[order[k]].id);
            lemma_shared(m, id, m.nodes[order[l]].id);
        }
        if order.len() <= 20 {
            assert forall|y: int| #[trigger] keeps_company(m, id, y) implies exists|k: int|
                0 <= k < list.len() && is_company(m, id, #[trigger] list[k], y) by {
                assert(order.contains(y));
                let k = choose|k: int| 0 <= k < order.len() && order[k] == y;
                lemma_shared(m, id, m.nodes[y].id);
                assert(is_company(m, id, list[k], y));
            }
        }
    }
}

/// Whether a reference is to note row `n`, which has an edge to `x`.
pub open spec fn is_ref_to(m: IndexModel, x: int, item: NoteRefModel, n: int) -> bool {
    &&& 0 <= n < m.notes.len()
    &&& joined_by_edge(m, m.notes[n].node_id, x)
    &&& item.note_date == m.notes[n].note_date
    &&& exists|i: int|
        0 <= i < m.nodes.len() && (#[trigger] m.nodes[i]).id == m.notes[n].node_id
            && m.nodes[i].path == Some(item.path)
}

/// Whether a reference is to some note.
pub open spec fn from_row(m: IndexModel, x: int, item: NoteRefModel) -> bool {
    exists|n: int| is_ref_to(m, x, item, n)
}

/// What is known about a name: the answer is about the node that the name stands for. It has its
/// kind, the metadata of a project where that has a branch, and that of an entity where it has a
/// file; and it lists every note with an edge to the node, by path and date, and no other.
pub proof fn law_about_says_what_is_known(m: IndexModel, name: Seq<char>)
    requires
        index_ok(m),
    ensures
        match about_of(m, name) {
            Ok(None) => forall|j: int|
                0 <= j < m.nodes.len() && ((#[trigger] m.nodes[j]).kind == "project"@
                    || m.nodes[j].kind == "entity"@) ==> canonical(m.nodes[j].name) != canonical(
                    name,
                ),
            Ok(Some(about)) => exists|x: int| #[trigger]
                is_meant(m.nodes, name, x) && tells_about(m, name, about, x),
            Err(_) => exists|x: int| #[trigger] is_meant(m.nodes, name, x),
        },
{
    law_names_stand_for_projects_first(m.nodes, name);
    if let Some(x) = subject_place(m.nodes, name) {
        assert(is_meant(m.nodes, name, x));
        if let Ok(about) = about_node(m, name, x) {
            lemma_tells_about(m, name, about, x);
        }
    }
}

/// Whether an answer says what is known about node `x`.
pub open spec fn tells_about(m: IndexModel, name: Seq<char>, about: AboutModel, x: int) -> bool {
    let node = m.nodes[x];
    &&& about.name == name
    &&& about.kind == node.kind
    &&& about.git == if node.kind == "project"@ && field(node.meta, "branch"@) is Some {
        Some(node.meta)
    } else {
        None
    }
    &&& about.definition == if node.kind == "entity"@ && field(node.meta, "file"@) is Some {
        Some(node.meta)
    } else {
        None
    }
    &&& forall|k: int| 0 <= k < about.notes.len() ==> from_row(m, node.id, #[trigger] about.notes[k])
    &&& forall|n: int|
        0 <= n < m.notes.len() && joined_by_edge(m, (#[trigger] m.notes[n]).node_id, node.id)
            ==> exists|k: int|
            0 <= k < about.notes.len() && is_ref_to(m, node.id, #[trigger] about.notes[k], n)
    &&& about.notes.len() == Set::new(
        |n: int| 0 <= n < m.notes.len() && joined_by_edge(m, m.notes[n].node_id, node.id),
    ).len()
}

proof fn lemma_tells_about(m: IndexModel, name: Seq<char>, about: AboutModel, x: int)
    requires
        index_ok(m),
        0 <= x < m.nodes.len(),
        about_node(m, name, x) == Ok::<AboutModel, QueryError>(about),
    ensures
        tells_about(m, name, about, x),
{
    let id = m.nodes[x].id;
    let flags = mentioning_flags(m, id);
    let order = by_date(m.notes, flags);
    lemma_by_date_order(m.notes, flags);
    lemma_refs(m, order, 0, Seq::empty());
    assert forall|n: int| 0 <= n < m.notes.len() implies flags[n] == joined_by_edge(
        m,
        (#[trigger] m.notes[n]).node_id,
        id,
    ) by {
        assert(joined_by_edge(m, m.notes[n].node_id, id) == arc(m, m.notes[n].node_id, id));
    }
    assert forall|k: int| 0 <= k < about.notes.len() implies is_ref_to(
        m,
        id,
        #[trigger] about.notes[k],
        order[k],
    ) by {
        let n = order[k];
        assert(flags[n]);
        assert(has_node(m.nodes, m.notes[n].node_id));
        let i = node_place(m.nodes, m.notes[n].node_id);
        assert(note_path_of(m, order[0 + k - 0]) == Some(about.notes[k].path));
        assert(m.nodes[i].id == m.notes[n].node_id && m.nodes[i].path == Some(about.notes[k].path));
        assert(joined_by_edge(m, m.notes[n].node_id, id));
    }
    assert forall|k: int| 0 <= k < about.notes.len() implies from_row(
        m,
        id,
        #[trigger] about.notes[k],
    ) by {
        assert(is_ref_to(m, id, about.notes[k], order[k]));
    }
    assert forall|n: int|
        0 <= n < m.notes.len() && joined_by_edge(m, (#[trigger] m.notes[n]).node_id, id) implies exists|
        k: int,
    | 0 <= k < about.notes.len() && is_ref_to(m, id, #[trigger] about.notes[k], n) by {
        assert(flags[n]);
        assert(order.contains(n));
        let k = choose|k: int| 0 <= k < order.len() && order[k] == n;
        assert(is_ref_to(m, id, about.notes[k], order[k]));
    }
    let rows = Set::new(
        |n: int| 0 <= n < m.notes.len() && joined_by_edge(m, m.notes[n].node_id, id),
    );
    assert forall|n: int| #[trigger] rows.contains(n) <==> 0 <= n < flags.len() && flags[n] by {
        if 0 <= n < m.notes.len() {
            assert(flags[n] == joined_by_edge(m, m.notes[n].node_id, id));
        }
    }
    lemma_picked_count(flags, rows);
}

/// Whether a fact is what edge `e` says about node `x`.
pub open spec fn is_fact_of(m: IndexModel, x: int, min: int, item: FactModel, e: int) -> bool {
    &&& 0 <= e < m.edges.len()
    &&& m.edges[e].dst == x
    &&& m.edges[e].weight >= min
    &&& item.relation == m.edges[e].kind
    &&& item.provenance == m.edges[e].provenance
    &&& item.weight == m.edges[e].weight
    &&& item.rationale == m.edges[e].rationale
    &&& exists|i: int|
        0 <= i < m.nodes.len() && (#[trigger] m.nodes[i]).id == m.edges[e].src && m.nodes[i].name
            == item.from && m.nodes[i].kind == item.from_kind
}

proof fn lemma_facts(m: IndexModel, x: int, min: int, n: int) -> (places: Seq<int>)
    requires
        index_ok(m),
        0 <= n <= m.edges.len(),
    ensures
        places.len() == facts_upto(m, x, min, n).len(),
        forall|k: int|
            0 <= k < places.len() ==> 0 <= #[trigger] places[k] < n && is_fact_of(
                m,
                x,
                min,
                facts_upto(m, x, min, n)[k],
                places[k],
            ),
        forall|k: int, l: int|
            0 <= k < l < places.len() ==> #[trigger] places[k] < #[trigger] places[l],
        forall|e: int|
            0 <= e < n && (#[trigger] m.edges[e]).dst == x && m.edges[e].weight >= min
                ==> places.contains(e),
    decreases n,
{
    if n <= 0 {
        Seq::empty()
    } else {
        let rest = lemma_facts(m, x, min, n - 1);
        let edge = m.edges[n - 1];
        if edge.dst == x && edge.weight >= min {
            let places = rest.push(n - 1);
            assert(has_node(m.nodes, edge.src));
            let i = node_place(m.nodes, edge.src);
            assert(m.nodes[i].id == edge.src);
            let all = facts_upto(m, x, min, n);
            assert forall|k: int| 0 <= k < places.len() implies 0 <= #[trigger] places[k] < n
                && is_fact_of(m, x, min, all[k], places[k]) by {
                if k < rest.len() {
                    assert(places[k] == rest[k]);
                }
            }
            assert forall|e: int|
                0 <= e < n && (#[trigger] m.edges[e]).dst == x && m.edges[e].weight
                    >= min implies places.contains(e) by {
                if e < n - 1 {
                    let k = choose|k: int| 0 <= k < rest.len() && rest[k] == e;
                    assert(places[k] == e);
                } else {
                    assert(places[rest.len() as int] == e);
                }
            }
            places
        } else {
            rest
        }
    }
}

/// Why a name is in the graph: each edge that points at what the name stands for and is heavy
/// enough gives one fact, in the order of the edges, with its kind, provenance, weight and
/// rationale and the name and kind of the node that it comes from.
pub proof fn law_why_tells_every_edge(m: IndexModel, name: Seq<char>, min: int)
    requires
        index_ok(m),
    ensures
        match why_of(m, name, min) {
            None => forall|j: int|
                0 <= j < m.nodes.len() && ((#[trigger] m.nodes[j]).kind == "project"@
                    || m.nodes[j].kind == "entity"@) ==> canonical(m.nodes[j].name) != canonical(
                    name,
                ),
            Some(facts) => exists|x: int, places: Seq<int>|
                #![trigger is_meant(m.nodes, name, x), places.len()]
                is_meant(m.nodes, name, x) && places.len() == facts.len() && (forall|k: int|
                    0 <= k < facts.len() ==> is_fact_of(
                        m,
                        m.nodes[x].id,
                        min,
                        facts[k],
                        #[trigger] places[k],
                    )) && (forall|k: int, l: int|
                    0 <= k < l < places.len() ==> #[trigger] places[k] < #[trigger] places[l]) && (
                forall|e: int|
                    0 <= e < m.edges.len() && (#[trigger] m.edges[e]).dst == m.nodes[x].id
                        && m.edges[e].weight >= min ==> places.contains(e)),
        },
{
    law_names_stand_for_projects_first(m.nodes, name);
    if let Some(x) = subject_place(m.nodes, name) {
        let places = lemma_facts(m, m.nodes[x].id, min, m.edges.len() as int);
        assert(is_meant(m.nodes, name, x) && places.len() == why_of(m, name, min)->0.len());
    }
}

/// Whether `d` is the date of a note row: its own date, and the day its file was last changed only
/// where it has none.
pub open spec fn is_date_of(row: NoteModel, d: Seq<char>) -> bool {
    row.note_date == Some(d) || row.note_date is None && row.mtime == Some(d)
}

/// Whether note row `n` contains node `id`.
pub open spec fn row_contains(m: IndexModel, n: int, id: int) -> bool {
    &&& 0 <= n < m.notes.len()
    &&& exists|e: int|
        0 <= e < m.edges.len() && (#[trigger] m.edges[e]).kind == "contains"@ && m.edges[e].src
            == m.notes[n].node_id && m.edges[e].dst == id
}

/// Whether `text` is the text of a loop node: what its metadata says, else its name.
pub open spec fn is_text_of(node: NodeModel, text: Seq<char>) -> bool {
    match text_field(node.meta, "text"@) {
        Some(t) => text == t,
        None => text == node.name,
    }
}

/// Whether note row `n` contains loop node `j` with the text `text`.
pub open spec fn row_has_loop(m: IndexModel, n: int, j: int, text: Seq<char>) -> bool {
    &&& 0 <= j < m.nodes.len()
    &&& m.nodes[j].kind == "loop"@
    &&& is_text_of(m.nodes[j], text)
    &&& row_contains(m, n, m.nodes[j].id)
}

/// The note rows that contain a loop with the text `text`.
pub open spec fn rows_with(m: IndexModel, text: Seq<char>) -> Set<int> {
    Set::new(|n: int| exists|j: int| #[trigger] row_has_loop(m, n, j, text))
}

/// Whether `first` is the earliest date of the note rows that contain node `id`.
pub open spec fn is_first_seen(m: IndexModel, id: int, first: Option<Seq<char>>) -> bool {
    match first {
        Some(d) => {
            &&& exists|n: int| #[trigger] row_contains(m, n, id) && is_date_of(m.notes[n], d)
            &&& forall|n: int, other: Seq<char>|
                #[trigger] row_contains(m, n, id) && #[trigger] is_date_of(m.notes[n], other)
                    ==> text_le(d, other)
        },
        None => forall|n: int| #[trigger]
            row_contains(m, n, id) ==> m.notes[n].note_date is None && m.notes[n].mtime is None,
    }
}

/// Whether `path` is that of the node of note row `n`.
pub open spec fn is_path_of(m: IndexModel, n: int, path: Seq<char>) -> bool {
    exists|i: int|
        0 <= i < m.nodes.len() && (#[trigger] m.nodes[i]).id == m.notes[n].node_id
            && m.nodes[i].path == Some(path)
}

/// Whether `path` is the least path of the notes that contain node `id`.
pub open spec fn is_least_path(m: IndexModel, id: int, path: Seq<char>) -> bool {
    &&& exists|n: int| #[trigger] row_contains(m, n, id) && is_path_of(m, n, path)
    &&& forall|n: int, other: Seq<char>|
        #[trigger] row_contains(m, n, id) && #[trigger] is_path_of(m, n, other) ==> text_le(
            path,
            other,
        )
}

/// Whether node `i` is an open loop: a note contains it. Where something is asked for, it mentions
/// that.
pub open spec fn is_open(m: IndexModel, about: Option<int>, i: int) -> bool {
    &&& 0 <= i < m.nodes.len()
    &&& m.nodes[i].kind == "loop"@
    &&& exists|n: int| #[trigger] row_contains(m, n, m.nodes[i].id)
    &&& about matches Some(id) ==> exists|e: int|
        0 <= e < m.edges.len() && (#[trigger] m.edges[e]).kind == "mentions"@ && m.edges[e].src
            == m.nodes[i].id && m.edges[e].dst == id
}

/// Whether an entry says what is known about open loop `i` on the day `today`.
pub open spec fn is_entry_for(
    m: IndexModel,
    about: Option<int>,
    today: i32,
    item: DanglingModel,
    i: int,
) -> bool {
    &&& is_open(m, about, i)
    &&& is_text_of(m.nodes[i], item.text)
    &&& item.section == text_field(m.nodes[i].meta, "section"@)
    &&& is_first_seen(m, m.nodes[i].id, item.first_seen)
    &&& item.age_days == match item.first_seen {
        None => None,
        Some(d) => match parsed_day(d) {
            None => None,
            Some(day) => Some((today - day) as i64),
        },
    }
    &&& item.sightings == rows_with(m, item.text).len()
    &&& is_least_path(m, m.nodes[i].id, item.note_path)
}

/// Whether an entry is that of some open loop.
pub open spec fn from_open(
    m: IndexModel,
    about: Option<int>,
    today: i32,
    item: DanglingModel,
) -> bool {
    exists|i: int| is_entry_for(m, about, today, item, i)
}

proof fn lemma_container(m: IndexModel, id: int, n: int)
    requires
        0 <= n < m.notes.len(),
    ensures
        container_flags(m, id)[n] == row_contains(m, n, id),
{
    if row_contains(m, n, id) {
        let e = choose|e: int|
            0 <= e < m.edges.len() && (#[trigger] m.edges[e]).kind == "contains"@ && m.edges[e].src
                == m.notes[n].node_id && m.edges[e].dst == id;
        assert(holds_loop(m, e, n, id));
    }
    if container_flags(m, id)[n] {
        let e = choose|e: int| 0 <= e < m.edges.len() && #[trigger] holds_loop(m, e, n, id);
        assert(m.edges[e].kind == "contains"@);
    }
}

proof fn lemma_first_seen(m: IndexModel, id: int, n: int)
    requires
        0 <= n <= m.notes.len(),
    ensures
        match first_seen_upto(m, container_flags(m, id), n) {
            Some(d) => {
                &&& exists|k: int|
                    k < n && #[trigger] row_contains(m, k, id) && is_date_of(m.notes[k], d)
                &&& forall|k: int, other: Seq<char>|
                    k < n && #[trigger] row_contains(m, k, id) && #[trigger] is_date_of(
                        m.notes[k],
                        other,
                    ) ==> text_le(d, other)
            },
            None => forall|k: int|
                k < n && #[trigger] row_contains(m, k, id) ==> m.notes[k].note_date is None
                    && m.notes[k].mtime is None,
        },
    decreases n,
{
    if n > 0 {
        let flags = container_flags(m, id);
        lemma_first_seen(m, id, n - 1);
        lemma_container(m, id, n - 1);
        let rest = first_seen_upto(m, flags, n - 1);
        let all = first_seen_upto(m, flags, n);
        if flags[n - 1] {
            assert(row_contains(m, n - 1, id));
            let row = m.notes[n - 1];
            match all {
                Some(d) => {
                    if rest == Some(d) {
                        let k = choose|k: int|
                            k < n - 1 && #[trigger] row_contains(m, k, id) && is_date_of(
                                m.notes[k],
                                d,
                            );
                        assert(row_contains(m, k, id));
                    } else {
                        assert(is_date_of(row, d));
                    }
                    assert forall|k: int, other: Seq<char>|
                        k < n && #[trigger] row_contains(m, k, id) && #[trigger] is_date_of(
                            m.notes[k],
                            other,
                        ) implies text_le(d, other) by {
                        lemma_text_le_total(d, d);
                        if k < n - 1 {
                            assert(rest is Some);
                            assert(text_le(rest->0, other));
                            lemma_text_le_total(rest->0, d);
                            lemma_text_le_trans_if(d, rest->0, other);
                        } else {
                            if let Some(r) = rest {
                                lemma_text_le_total(r, other);
                            }
                        }
                    }
                },
                None => {},
            }
        }
    }
}

proof fn lemma_text_le_trans_if(a: Seq<char>, b: Seq<char>, c: Seq<char>)
    ensures
        text_le(a, b) && text_le(b, c) ==> text_le(a, c),
{
    if text_le(a, b) && text_le(b, c) {
        lemma_text_le_trans(a, b, c);
    }
}

pub proof fn lemma_path_of(m: IndexModel, n: int, path: Seq<char>)
    requires
        index_ok(m),
        0 <= n < m.notes.len(),
    ensures
        is_path_of(m, n, path) <==> note_path_of(m, n) == Some(path),
{
    assert(has_node(m.nodes, m.notes[n].node_id));
    let p = node_place(m.nodes, m.notes[n].node_id);
    assert(m.nodes[p].id == m.notes[n].node_id);
    if is_path_of(m, n, path) {
        let i = choose|i: int|
            0 <= i < m.nodes.len() && (#[trigger] m.nodes[i]).id == m.notes[n].node_id
                && m.nodes[i].path == Some(path);
        lemma_node_place(m.nodes, i);
    }
}

proof fn lemma_least_path(m: IndexModel, id: int, n: int)
    requires
        index_ok(m),
        0 <= n <= m.notes.len(),
    ensures
        match least_path_upto(m, container_flags(m, id), n) {
            Some(d) => {
                &&& exists|k: int|
                    k < n && #[trigger] row_contains(m, k, id) && is_path_of(m, k, d)
                &&& forall|k: int, other: Seq<char>|
                    k < n && #[trigger] row_contains(m, k, id) && #[trigger] is_path_of(m, k, other)
                        ==> text_le(d, other)
            },
            None => forall|k: int, other: Seq<char>|
                k < n && #[trigger] row_contains(m, k, id) ==> !#[trigger] is_path_of(m, k, other),
        },
    decreases n,
{
    if n > 0 {
        let flags = container_flags(m, id);
        lemma_least_path(m, id, n - 1);
        lemma_container(m, id, n - 1);
        let rest = least_path_upto(m, flags, n - 1);
        let all = least_path_upto(m, flags, n);
        if flags[n - 1] {
            assert(row_contains(m, n - 1, id));
            match all {
                Some(d) => {
                    if rest == Some(d) {
                        let k = choose|k: int|
                            k < n - 1 && #[trigger] row_contains(m, k, id) && is_path_of(m, k, d);
                        assert(row_contains(m, k, id));
                    } else {
                        lemma_path_of(m, n - 1, d);
                        assert(is_path_of(m, n - 1, d));
                    }
                    assert forall|k: int, other: Seq<char>|
                        k < n && #[trigger] row_contains(m, k, id) && #[trigger] is_path_of(
                            m,
                            k,
                            other,
                        ) implies text_le(d, other) by {
                        lemma_text_le_total(d, d);
                        if k < n - 1 {
                            assert(rest is Some);
                            assert(text_le(rest->0, other));
                            lemma_text_le_total(rest->0, d);
                            lemma_text_le_trans_if(d, rest->0, other);
                        } else {
                            lemma_path_of(m, n - 1, other);
                            if let Some(r) = rest {
                                lemma_text_le_total(r, other);
                            }
                        }
                    }
                },
                None => {
                    assert forall|k: int, other: Seq<char>|
                        k < n && #[trigger] row_contains(m, k, id) implies !#[trigger] is_path_of(
                        m,
                        k,
                        other,
                    ) by {
                        if k == n - 1 {
                            lemma_path_of(m, n - 1, other);
                        }
                    }
                },
            }
        }
    }
}

proof fn lemma_sightings(m: IndexModel, text: Seq<char>)
    requires
        index_ok(m),
    ensures
        rows_with(m, text).finite(),
        picked(sighting_flags(m, text)).len() == rows_with(m, text).len(),
{
    let flags = sighting_flags(m, text);
    assert forall|n: int| #[trigger] rows_with(m, text).contains(n) <==> 0 <= n < flags.len()
        && flags[n] by {
        if 0 <= n < flags.len() && flags[n] {
            let e = choose|e: int| 0 <= e < m.edges.len() && #[trigger] holds_text(m, e, n, text);
            assert(has_node(m.nodes, m.edges[e].dst));
            let j = node_place(m.nodes, m.edges[e].dst);
            assert(m.nodes[j].id == m.edges[e].dst);
            assert(m.edges[e].kind == "contains"@);
            assert(row_has_loop(m, n, j, text));
        }
        if rows_with(m, text).contains(n) {
            let j = choose|j: int| #[trigger] row_has_loop(m, n, j, text);
            let e = choose|e: int|
                0 <= e < m.edges.len() && (#[trigger] m.edges[e]).kind == "contains"@
                    && m.edges[e].src == m.notes[n].node_id && m.edges[e].dst == m.nodes[j].id;
            lemma_node_place(m.nodes, j);
            assert(holds_text(m, e, n, text));
        }
    }
    lemma_picked_count(flags, rows_with(m, text));
}

proof fn lemma_open(m: IndexModel, about: Option<int>, i: int)
    requires
        0 <= i < m.nodes.len(),
    ensures
        is_dangling(m, about, i) == is_open(m, about, i),
{
    let id = m.nodes[i].id;
    let flags = container_flags(m, id);
    lemma_picked(flags);
    if picked(flags).len() > 0 {
        let n = picked(flags)[0];
        assert(flags[n]);
        lemma_container(m, id, n);
        assert(row_contains(m, n, id));
    }
    if exists|n: int| #[trigger] row_contains(m, n, id) {
        let n = choose|n: int| #[trigger] row_contains(m, n, id);
        lemma_container(m, id, n);
        assert(picked(flags).contains(n));
    }
}

proof fn lemma_entry_for(m: IndexModel, about: Option<int>, today: i32, item: DanglingModel, i: int)
    requires
        index_ok(m),
        0 <= i < m.nodes.len(),
        is_dangling(m, about, i),
        dangling_item(m, i, today) == Ok::<DanglingModel, QueryError>(item),
    ensures
        is_entry_for(m, about, today, item, i),
{
    let id = m.nodes[i].id;
    let n = m.notes.len() as int;
    lemma_open(m, about, i);
    lemma_first_seen(m, id, n);
    lemma_least_path(m, id, n);
    lemma_sightings(m, item.text);
    assert(is_first_seen(m, id, item.first_seen));
    assert(is_least_path(m, id, item.note_path));
}

/// The list of open loops: each entry is that of a loop that a note contains. It has the text and
/// section of the loop, the earliest date of the notes that contain it and its age by that date,
/// the number of notes that hold a loop with the same text, and the least path of the notes that
/// contain it. The list is as long as there are such loops, up to the limit, and where the limit
/// leaves room for all of them, none is left out.
pub proof fn law_open_loops_are_told(
    m: IndexModel,
    about: Option<Seq<char>>,
    limit: usize,
    today: i32,
)
    requires
        index_ok(m),
    ensures
        match (asked_for(m, about), dangling_of(m, about, limit, today)) {
            (Some(id), Ok(items)) => {
                let all = Set::new(|i: int| is_open(m, id, i));
                &&& items.len() == if all.len() <= limit {
                    all.len()
                } else {
                    limit as nat
                }
                &&& forall|k: int|
                    0 <= k < items.len() ==> from_open(m, id, today, #[trigger] items[k])
                &&& all.len() <= limit ==> forall|i: int| #[trigger]
                    is_open(m, id, i) ==> exists|k: int|
                        0 <= k < items.len() && is_entry_for(m, id, today, #[trigger] items[k], i)
            },
            (None, Ok(items)) => items.len() == 0,
            _ => true,
        },
{
    if let (Some(id), Ok(items)) = (asked_for(m, about), dangling_of(m, about, limit, today)) {
        let order = dangling_order(m, id);
        let short = limited(order, limit);
        lemma_dangling_order(m, id);
        lemma_entries(m, short, today, 0, Seq::empty());
        assert forall|k: int| 0 <= k < items.len() implies is_entry_for(
            m,
            id,
            today,
            #[trigger] items[k],
            order[k],
        ) by {
            assert(short[k] == order[k]);
            assert(dangling_item(m, short[0 + k - 0], today) == Ok::<DanglingModel, QueryError>(
                items[k],
            ));
            lemma_entry_for(m, id, today, items[k], order[k]);
        }
        assert forall|k: int| 0 <= k < items.len() implies from_open(
            m,
            id,
            today,
            #[trigger] items[k],
        ) by {
            assert(is_entry_for(m, id, today, items[k], order[k]));
        }
        let all = Set::new(|i: int| is_open(m, id, i));
        let flags = dangling_flags(m, id);
        assert forall|i: int| #[trigger] all.contains(i) <==> 0 <= i < flags.len() && flags[i] by {
            if 0 <= i < m.nodes.len() {
                lemma_open(m, id, i);
            }
        }
        lemma_picked_count(flags, all);
        assert(order.len() == all.len());
        if order.len() <= limit {
            assert forall|i: int| #[trigger] is_open(m, id, i) implies exists|k: int|
                0 <= k < items.len() && is_entry_for(m, id, today, #[trigger] items[k], i) by {
                lemma_open(m, id, i);
                assert(order.contains(i));
                let k = choose|k: int| 0 <= k < order.len() && order[k] == i;
                assert(is_entry_for(m, id, today, items[k], order[k]));
            }
        }
    }
}

/// A loop that one note contains was first seen on the date of that note: its own date whenever it
/// has one, whatever the day its file was last changed, and that day only where it has none.
pub proof fn law_loop_is_as_old_as_its_note(
    m: IndexModel,
    about: Option<int>,
    today: i32,
    item: DanglingModel,
    i: int,
    n: int,
)
    requires
        is_entry_for(m, about, today, item, i),
        row_contains(m, n, m.nodes[i].id),
        forall|o: int| #[trigger] row_contains(m, o, m.nodes[i].id) ==> o == n,
    ensures
        m.notes[n].note_date is Some ==> item.first_seen == m.notes[n].note_date,
        m.notes[n].note_date is None ==> item.first_seen == m.notes[n].mtime,
{
    match item.first_seen {
        Some(d) => {
            let o = choose|o: int| #[trigger]
                row_contains(m, o, m.nodes[i].id) && is_date_of(m.notes[o], d);
            assert(o == n);
        },
        None => {},
    }
}

/// What is asked for is what the name stands for.
pub proof fn law_loops_are_asked_for_by_name(m: IndexModel, name: Seq<char>)
    ensures
        match asked_for(m, Some(name)) {
            Some(Some(id)) => exists|x: int| #[trigger]
                is_meant(m.nodes, name, x) && m.nodes[x].id == id,
            Some(None) => false,
            None => forall|j: int|
                0 <= j < m.nodes.len() && ((#[trigger] m.nodes[j]).kind == "project"@
                    || m.nodes[j].kind == "entity"@) ==> canonical(m.nodes[j].name) != canonical(
                    name,
                ),
        },
{
    law_names_stand_for_projects_first(m.nodes, name);
}

} // verus!
